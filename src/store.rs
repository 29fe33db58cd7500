//! The durable trie tables held in memory: the account trie and one storage
//! trie per hashed account, changed only by the writes that flushes make.

use crate::flush::{apply_write, apply_writes, ops_view, TrieTableOp, TrieTableOpView, TrieTablesView};
use crate::cursor::{storage_of, MemoryTrieCursorFactory, TrieCursorFactory};
use crate::nibbles::B256;
use crate::table::TrieTable;
use vstd::prelude::*;

verus! {

/// No hashed account is listed twice.
pub open spec fn unique_accounts(s: Seq<(B256, TrieTable)>) -> bool {
    forall|i: int, j: int| 0 <= i < j < s.len() ==> #[trigger] s[i].0@ != #[trigger] s[j].0@
}

/// The storage trie listed for `account`, or an empty one.
pub open spec fn section(s: Seq<(B256, TrieTable)>, account: Seq<u8>) -> Map<Seq<u8>, Seq<u8>> {
    if exists|i: int| 0 <= i < s.len() && s[i].0@ == account {
        s[choose|i: int| 0 <= i < s.len() && s[i].0@ == account].1@
    } else {
        Map::empty()
    }
}

/// The storage tries of `s` as one table keyed by hashed account and path.
pub open spec fn storages_view(s: Seq<(B256, TrieTable)>) -> Map<(Seq<u8>, Seq<u8>), Seq<u8>> {
    Map::new(
        |k: (Seq<u8>, Seq<u8>)| section(s, k.0).contains_key(k.1),
        |k: (Seq<u8>, Seq<u8>)| section(s, k.0)[k.1],
    )
}

proof fn lemma_section_at(s: Seq<(B256, TrieTable)>, i: int)
    requires
        unique_accounts(s),
        0 <= i < s.len(),
    ensures
        section(s, s[i].0@) == s[i].1@,
{
    let a = s[i].0@;
    assert(0 <= i < s.len() && s[i].0@ == a);
    let j = choose|j: int| 0 <= j < s.len() && s[j].0@ == a;
    if j < i {
        assert(s[j].0@ != s[i].0@);
    } else if i < j {
        assert(s[i].0@ != s[j].0@);
    }
}

/// Two listings that agree on every account but `a` give the same storage
/// entries outside `a`.
proof fn lemma_sections_agree(s: Seq<(B256, TrieTable)>, t: Seq<(B256, TrieTable)>, a: Seq<u8>)
    requires
        unique_accounts(s),
        unique_accounts(t),
        forall|b: Seq<u8>| b != a ==> #[trigger] section(s, b) == section(t, b),
    ensures
        forall|k: (Seq<u8>, Seq<u8>)| k.0 != a ==> (#[trigger] storages_view(s).contains_key(k)
            == storages_view(t).contains_key(k) && (storages_view(s).contains_key(k)
            ==> storages_view(s)[k] == storages_view(t)[k])),
{
    assert forall|k: (Seq<u8>, Seq<u8>)| k.0 != a implies (#[trigger] storages_view(
        s,
    ).contains_key(k) == storages_view(t).contains_key(k) && (storages_view(s).contains_key(k)
        ==> storages_view(s)[k] == storages_view(t)[k])) by {
        assert(section(s, k.0) == section(t, k.0));
    }
}

/// The account trie and the storage tries, held in memory.
#[derive(Debug, PartialEq, Eq)]
pub struct TrieTables {
    accounts: TrieTable,
    storages: Vec<(B256, TrieTable)>,
}

impl View for TrieTables {
    type V = TrieTablesView;

    closed spec fn view(&self) -> TrieTablesView {
        TrieTablesView { accounts: self.accounts@, storages: storages_view(self.storages@) }
    }
}

impl TrieTables {
    pub closed spec fn wf(&self) -> bool {
        &&& self.accounts.wf()
        &&& unique_accounts(self.storages@)
        &&& forall|i: int| 0 <= i < self.storages@.len() ==> (#[trigger] self.storages@[i]).1.wf()
    }

    /// Empty tables.
    pub fn new() -> (r: TrieTables)
        ensures
            r.wf(),
            r@.accounts == Map::<Seq<u8>, Seq<u8>>::empty(),
            r@.storages == Map::<(Seq<u8>, Seq<u8>), Seq<u8>>::empty(),
    {
        let r = TrieTables { accounts: TrieTable::new(), storages: Vec::new() };
        assert(storages_view(r.storages@) =~= Map::<(Seq<u8>, Seq<u8>), Seq<u8>>::empty());
        r
    }

    /// The account trie.
    pub fn accounts(&self) -> (r: &TrieTable)
        requires
            self.wf(),
        ensures
            r.wf(),
            r@ == self@.accounts,
    {
        &self.accounts
    }

    /// A copy of the storage trie of `account`.
    pub fn storage(&self, account: &B256) -> (r: TrieTable)
        requires
            self.wf(),
        ensures
            r.wf(),
            forall|p: Seq<u8>| #[trigger] r@.contains_key(p) == self@.storages.contains_key((account@, p)),
            forall|p: Seq<u8>| #[trigger] r@.contains_key(p) ==> r@[p] == self@.storages[(account@, p)],
    {
        match self.find(account) {
            Some(i) => {
                proof {
                    lemma_section_at(self.storages@, i as int);
                }
                self.storages[i].1.clone()
            },
            None => {
                let r = TrieTable::new();
                assert(section(self.storages@, account@) =~= Map::<Seq<u8>, Seq<u8>>::empty());
                r
            },
        }
    }

    /// The position of `account` among the storage tries.
    fn find(&self, account: &B256) -> (r: Option<usize>)
        ensures
            match r {
                Some(i) => i < self.storages@.len() && self.storages@[i as int].0@ == account@,
                None => forall|j: int| 0 <= j < self.storages@.len() ==> #[trigger] self.storages@[j].0@ != account@,
            },
    {
        let mut i: usize = 0;
        while i < self.storages.len()
            invariant
                i <= self.storages@.len(),
                forall|j: int| 0 <= j < i ==> #[trigger] self.storages@[j].0@ != account@,
            decreases self.storages.len() - i,
        {
            if self.storages[i].0.same_as(account) {
                return Some(i);
            }
            i = i + 1;
        }
        None
    }

    /// Applies one write.
    pub fn apply(&mut self, write: TrieTableOp)
        requires
            old(self).wf(),
        ensures
            final(self).wf(),
            final(self)@ == apply_write(old(self)@, write@),
    {
        let ghost s0 = self.storages@;
        let ghost v0 = self@;
        match write {
            TrieTableOp::DeleteAccountNode(p) => {
                self.accounts.delete(&p);
            },
            TrieTableOp::UpsertAccountNode(p, n) => {
                self.accounts.upsert(p, n);
            },
            TrieTableOp::DeleteStorageTrie(a) => {
                match self.find(&a) {
                    Some(i) => {
                        self.storages.remove(i);
                        proof {
                            let s1 = self.storages@;
                            assert(s1 =~= s0.remove(i as int));
                            assert forall|x: int, y: int| 0 <= x < y < s1.len() implies #[trigger] s1[x].0@ != #[trigger] s1[y].0@ by {
                                if x < i && y >= i {
                                    assert(s1[y] == s0[y + 1]);
                                } else if x >= i {
                                    assert(s1[x] == s0[x + 1] && s1[y] == s0[y + 1]);
                                }
                            }
                            assert forall|b: Seq<u8>| b != a@ implies #[trigger] section(s1, b) == section(s0, b) by {
                                if exists|j: int| 0 <= j < s0.len() && s0[j].0@ == b {
                                    let j = choose|j: int| 0 <= j < s0.len() && s0[j].0@ == b;
                                    lemma_section_at(s0, j);
                                    let jj = if j < i { j } else { j - 1 };
                                    assert(s1[jj] == s0[j]);
                                    lemma_section_at(s1, jj);
                                } else {
                                    assert forall|j: int| 0 <= j < s1.len() implies s1[j].0@ != b by {
                                        if j < i { assert(s1[j] == s0[j]); } else { assert(s1[j] == s0[j + 1]); }
                                    }
                                }
                            }
                            lemma_sections_agree(s1, s0, a@);
                            assert forall|j: int| 0 <= j < s1.len() implies s1[j].0@ != a@ by {
                                if j < i {
                                    assert(s1[j] == s0[j]);
                                } else {
                                    assert(s1[j] == s0[j + 1]);
                                }
                            }
                            assert(self@.storages =~= apply_write(v0, write@).storages);
                        }
                    },
                    None => {
                        proof {
                            assert(self@.storages =~= apply_write(v0, write@).storages);
                        }
                    },
                }
            },
            TrieTableOp::DeleteStorageNode(a, p) => {
                match self.find(&a) {
                    Some(i) => {
                        let (addr, mut table) = self.storages.remove(i);
                        proof {
                            lemma_section_at(s0, i as int);
                        }
                        table.delete(&p);
                        self.storages.insert(i, (addr, table));
                        proof {
                            self.lemma_replaced(s0, i as int, a@);
                            assert(self@.storages =~= apply_write(v0, write@).storages);
                        }
                    },
                    None => {
                        proof {
                            assert(self@.storages =~= apply_write(v0, write@).storages);
                        }
                    },
                }
            },
            TrieTableOp::UpsertStorageNode(a, p, n) => {
                match self.find(&a) {
                    Some(i) => {
                        let (addr, mut table) = self.storages.remove(i);
                        proof {
                            lemma_section_at(s0, i as int);
                        }
                        table.upsert(p, n);
                        self.storages.insert(i, (addr, table));
                        proof {
                            self.lemma_replaced(s0, i as int, a@);
                            assert(self@.storages =~= apply_write(v0, write@).storages);
                        }
                    },
                    None => {
                        let mut table = TrieTable::new();
                        table.upsert(p, n);
                        self.storages.push((a, table));
                        proof {
                            let s1 = self.storages@;
                            let last = s0.len() as int;
                            assert(s1 =~= s0.push(s1[last]));
                            assert forall|x: int, y: int| 0 <= x < y < s1.len() implies #[trigger] s1[x].0@ != #[trigger] s1[y].0@ by {
                                if y < last {
                                    assert(s1[x] == s0[x] && s1[y] == s0[y]);
                                } else {
                                    assert(s1[x] == s0[x]);
                                }
                            }
                            lemma_section_at(s1, last);
                            assert forall|b: Seq<u8>| b != a@ implies #[trigger] section(s1, b) == section(s0, b) by {
                                if exists|j: int| 0 <= j < s0.len() && s0[j].0@ == b {
                                    let j = choose|j: int| 0 <= j < s0.len() && s0[j].0@ == b;
                                    lemma_section_at(s0, j);
                                    assert(s1[j] == s0[j]);
                                    lemma_section_at(s1, j);
                                } else {
                                    assert forall|j: int| 0 <= j < s1.len() implies s1[j].0@ != b by {
                                        if j < last { assert(s1[j] == s0[j]); }
                                    }
                                }
                            }
                            lemma_sections_agree(s1, s0, a@);
                            assert(section(s0, a@) =~= Map::<Seq<u8>, Seq<u8>>::empty());
                            assert(self@.storages =~= apply_write(v0, write@).storages);
                        }
                    },
                }
            },
        }
    }

    /// After the table at position `i`, listed for `a`, was replaced: every
    /// other account keeps its storage trie.
    proof fn lemma_replaced(&self, s0: Seq<(B256, TrieTable)>, i: int, a: Seq<u8>)
        requires
            unique_accounts(s0),
            0 <= i < s0.len(),
            s0[i].0@ == a,
            self.storages@.len() == s0.len(),
            self.storages@[i].0@ == a,
            forall|j: int| 0 <= j < s0.len() && j != i ==> #[trigger] self.storages@[j] == s0[j],
        ensures
            unique_accounts(self.storages@),
            section(self.storages@, a) == self.storages@[i].1@,
            forall|b: Seq<u8>| b != a ==> #[trigger] section(self.storages@, b) == section(s0, b),
            forall|k: (Seq<u8>, Seq<u8>)| k.0 != a ==> (#[trigger] storages_view(self.storages@).contains_key(k)
                == storages_view(s0).contains_key(k) && (storages_view(self.storages@).contains_key(k)
                ==> storages_view(self.storages@)[k] == storages_view(s0)[k])),
    {
        let s1 = self.storages@;
        assert forall|x: int, y: int| 0 <= x < y < s1.len() implies #[trigger] s1[x].0@ != #[trigger] s1[y].0@ by {
            if x != i { assert(s1[x] == s0[x]); }
            if y != i { assert(s1[y] == s0[y]); }
        }
        lemma_section_at(s1, i);
        assert forall|b: Seq<u8>| b != a implies #[trigger] section(s1, b) == section(s0, b) by {
            if exists|j: int| 0 <= j < s0.len() && s0[j].0@ == b {
                let j = choose|j: int| 0 <= j < s0.len() && s0[j].0@ == b;
                lemma_section_at(s0, j);
                assert(s1[j] == s0[j]);
                lemma_section_at(s1, j);
            } else {
                assert forall|j: int| 0 <= j < s1.len() implies s1[j].0@ != b by {
                    if j != i { assert(s1[j] == s0[j]); }
                }
            }
        }
        lemma_sections_agree(s1, s0, a);
    }

    /// Applies the writes one after the other.
    pub fn apply_all(&mut self, writes: Vec<TrieTableOp>)
        requires
            old(self).wf(),
        ensures
            final(self).wf(),
            final(self)@ == apply_writes(old(self)@, ops_view(writes@)),
    {
        let ghost w = ops_view(writes@);
        let mut rest = writes;
        let mut writes: Vec<TrieTableOp> = Vec::new();
        while rest.len() > 0
            invariant
                rest@.len() + writes@.len() == w.len(),
                forall|j: int| 0 <= j < rest@.len() ==> (#[trigger] rest@[j])@ == w[j],
                forall|j: int| 0 <= j < writes@.len() ==> (#[trigger] writes@[j])@ == w[w.len() - 1 - j],
            decreases rest.len(),
        {
            let x = rest.pop().unwrap();
            writes.push(x);
        }
        let total: usize = writes.len();
        let mut n: usize = 0;
        while writes.len() > 0
            invariant
                self.wf(),
                w.len() == total,
                n + writes@.len() == w.len(),
                forall|j: int| 0 <= j < writes@.len() ==> (#[trigger] writes@[j])@ == w[w.len() - 1 - j],
                self@ == apply_writes(old(self)@, w.take(n as int)),
            decreases writes.len(),
        {
            let next = writes.pop().unwrap();
            proof {
                assert(next@ == w[n as int]);
                assert(w.take(n as int + 1).drop_last() =~= w.take(n as int));
            }
            self.apply(next);
            n = n + 1;
        }
        assert(w.take(w.len() as int) =~= w);
    }
}

impl TrieTables {
    /// A copy of the tables.
    pub fn copy(&self) -> (r: TrieTables)
        requires
            self.wf(),
        ensures
            r.wf(),
            r@ == self@,
    {
        let accounts = self.accounts.clone();
        let ghost s0 = self.storages@;
        let mut storages: Vec<(B256, TrieTable)> = Vec::new();
        let mut i: usize = 0;
        while i < self.storages.len()
            invariant
                s0 == self.storages@,
                unique_accounts(s0),
                forall|j: int| 0 <= j < s0.len() ==> (#[trigger] s0[j]).1.wf(),
                i <= s0.len(),
                storages@.len() == i,
                forall|j: int| 0 <= j < i ==> (#[trigger] storages@[j]).0 == s0[j].0 && storages@[j].1.rows() == s0[j].1.rows(),
            decreases self.storages.len() - i,
        {
            let table = self.storages[i].1.clone();
            storages.push((self.storages[i].0, table));
            i = i + 1;
        }
        let r = TrieTables { accounts, storages };
        proof {
            let s1 = r.storages@;
            assert forall|b: Seq<u8>| #[trigger] section(s1, b) == section(s0, b) by {
                if exists|j: int| 0 <= j < s0.len() && s0[j].0@ == b {
                    let j = choose|j: int| 0 <= j < s0.len() && s0[j].0@ == b;
                    lemma_section_at(s0, j);
                    lemma_section_at(s1, j);
                } else {
                    assert forall|j: int| 0 <= j < s1.len() implies s1[j].0@ != b by {}
                }
            }
            assert(storages_view(s1) =~= storages_view(s0));
        }
        r
    }
}

/// With each account listed once, the first table listed for an account is
/// its only one.
proof fn lemma_storage_of_unique(s: Seq<(B256, TrieTable)>, a: Seq<u8>)
    requires
        unique_accounts(s),
    ensures
        storage_of(s, a) == section(s, a),
    decreases s.len(),
{
    if s.len() > 0 {
        let t = s.skip(1);
        assert forall|x: int, y: int| 0 <= x < y < t.len() implies #[trigger] t[x].0@ != #[trigger] t[y].0@ by {
            assert(t[x] == s[x + 1] && t[y] == s[y + 1]);
        }
        lemma_storage_of_unique(t, a);
        if s[0].0@ == a {
            lemma_section_at(s, 0);
        } else if exists|j: int| 0 <= j < s.len() && s[j].0@ == a {
            let j = choose|j: int| 0 <= j < s.len() && s[j].0@ == a;
            lemma_section_at(s, j);
            assert(t[j - 1] == s[j]);
            lemma_section_at(t, j - 1);
        } else {
            assert forall|j: int| 0 <= j < t.len() implies t[j].0@ != a by {
                assert(t[j] == s[j + 1]);
            }
        }
    }
}

impl TrieTables {
    /// Durable cursors over a copy of the tables.
    pub fn cursor_factory(&self) -> (r: MemoryTrieCursorFactory)
        requires
            self.wf(),
        ensures
            r.account_entries() == self@.accounts,
            forall|a: Seq<u8>, p: Seq<u8>| #[trigger] r.storage_entries(a).contains_key(p)
                == self@.storages.contains_key((a, p)),
            forall|a: Seq<u8>, p: Seq<u8>| #[trigger] r.storage_entries(a).contains_key(p)
                ==> r.storage_entries(a)[p] == self@.storages[(a, p)],
    {
        let copy = self.copy();
        let TrieTables { accounts, storages } = copy;
        proof {
            assert forall|a: Seq<u8>| #[trigger] storage_of(storages@, a) == section(storages@, a) by {
                lemma_storage_of_unique(storages@, a);
            }
        }
        MemoryTrieCursorFactory::new(accounts, storages)
    }
}

/// `apply_writes` over two runs of writes is the second run applied after
/// the first.
pub proof fn lemma_apply_writes_append(
    t: TrieTablesView,
    a: Seq<TrieTableOpView>,
    b: Seq<TrieTableOpView>,
)
    ensures
        apply_writes(t, a + b) == apply_writes(apply_writes(t, a), b),
    decreases b.len(),
{
    if b.len() == 0 {
        assert(a + b =~= a);
    } else {
        lemma_apply_writes_append(t, a, b.drop_last());
        assert((a + b).drop_last() =~= a + b.drop_last());
    }
}

} // verus!
