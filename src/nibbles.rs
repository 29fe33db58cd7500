//! Byte-level primitives of the trie: nibble paths, hashed account
//! identifiers, compact branch nodes, and the lexicographic order on byte
//! sequences that all trie keys are sorted by.

use std::cmp::Ordering;
use vstd::prelude::*;

verus! {

/// `a` and `b` agree on their first `i` elements and `i` is the first place
/// where `a` sorts before `b`: either `a` ends there and `b` goes on, or both
/// go on and `a` has the smaller element.
pub open spec fn lt_at(a: Seq<u8>, b: Seq<u8>, i: int) -> bool {
    &&& 0 <= i <= a.len()
    &&& i <= b.len()
    &&& forall|k: int| 0 <= k < i ==> a[k] == b[k]
    &&& ((i == a.len() && i < b.len()) || (i < a.len() && i < b.len() && a[i] < b[i]))
}

/// Strict lexicographic order on byte sequences; a proper prefix sorts first.
pub open spec fn seq_lt(a: Seq<u8>, b: Seq<u8>) -> bool {
    exists|i: int| lt_at(a, b, i)
}

/// Non-strict lexicographic order on byte sequences.
pub open spec fn seq_le(a: Seq<u8>, b: Seq<u8>) -> bool {
    a == b || seq_lt(a, b)
}

pub proof fn lemma_seq_lt_irreflexive(a: Seq<u8>)
    ensures
        !seq_lt(a, a),
{
}

pub proof fn lemma_seq_lt_transitive(a: Seq<u8>, b: Seq<u8>, c: Seq<u8>)
    requires
        seq_lt(a, b),
        seq_lt(b, c),
    ensures
        seq_lt(a, c),
{
    let i = choose|i: int| lt_at(a, b, i);
    let j = choose|j: int| lt_at(b, c, j);
    if i <= j {
        assert(lt_at(a, c, i));
    } else {
        assert(lt_at(a, c, j));
    }
}

pub proof fn lemma_seq_lt_asymmetric(a: Seq<u8>, b: Seq<u8>)
    requires
        seq_lt(a, b),
    ensures
        !seq_lt(b, a),
        a != b,
{
    if seq_lt(b, a) {
        lemma_seq_lt_transitive(a, b, a);
    }
}

/// Of two different sequences one sorts before the other.
pub proof fn lemma_seq_lt_total(a: Seq<u8>, b: Seq<u8>)
    requires
        a != b,
    ensures
        seq_lt(a, b) || seq_lt(b, a),
{
    if exists|k: int| 0 <= k < a.len() && k < b.len() && a[k] != b[k] {
        let k0 = choose|k: int| 0 <= k < a.len() && k < b.len() && a[k] != b[k];
        let first = first_difference(a, b, k0);
        if a[first] < b[first] {
            assert(lt_at(a, b, first));
        } else {
            assert(lt_at(b, a, first));
        }
    } else if a.len() < b.len() {
        assert(lt_at(a, b, a.len() as int));
    } else if b.len() < a.len() {
        assert(lt_at(b, a, b.len() as int));
    } else {
        assert(a =~= b);
    }
}

proof fn first_difference(a: Seq<u8>, b: Seq<u8>, k: int) -> (f: int)
    requires
        0 <= k < a.len(),
        k < b.len(),
        a[k] != b[k],
    ensures
        0 <= f <= k,
        a[f] != b[f],
        forall|m: int| 0 <= m < f ==> a[m] == b[m],
    decreases k,
{
    if exists|m: int| 0 <= m < k && a[m] != b[m] {
        let m = choose|m: int| 0 <= m < k && a[m] != b[m];
        first_difference(a, b, m)
    } else {
        k
    }
}

/// `p.push(0)` is the immediate successor of `p`: every sequence above `p`
/// is at or above it.
pub proof fn lemma_seq_successor(p: Seq<u8>, m: Seq<u8>)
    ensures
        seq_lt(p, p.push(0)),
        seq_lt(p, m) <==> seq_le(p.push(0), m),
{
    let s = p.push(0);
    assert(lt_at(p, s, p.len() as int));
    if seq_lt(p, m) {
        let i = choose|i: int| lt_at(p, m, i);
        if i < p.len() {
            assert(lt_at(s, m, i));
        } else if m[i] > 0 {
            assert(lt_at(s, m, i));
        } else if m.len() > s.len() {
            assert(lt_at(s, m, s.len() as int));
        } else {
            assert(s =~= m);
        }
    }
    if seq_le(s, m) {
        if s != m {
            lemma_seq_lt_transitive(p, s, m);
        }
    }
}

/// Compares two byte sequences lexicographically.
pub fn cmp_bytes(a: &[u8], b: &[u8]) -> (r: Ordering)
    ensures
        (r == Ordering::Less) == seq_lt(a@, b@),
        (r == Ordering::Equal) == (a@ == b@),
        (r == Ordering::Greater) == seq_lt(b@, a@),
{
    let mut i: usize = 0;
    while i < a.len() && i < b.len()
        invariant
            i <= a@.len(),
            i <= b@.len(),
            forall|k: int| 0 <= k < i ==> a@[k] == b@[k],
        decreases a.len() - i,
    {
        if a[i] != b[i] {
            proof {
                if a@[i as int] < b@[i as int] {
                    assert(lt_at(a@, b@, i as int));
                    lemma_seq_lt_asymmetric(a@, b@);
                } else {
                    assert(lt_at(b@, a@, i as int));
                    lemma_seq_lt_asymmetric(b@, a@);
                }
            }
            if a[i] < b[i] {
                return Ordering::Less;
            } else {
                return Ordering::Greater;
            }
        }
        i = i + 1;
    }
    proof {
        if a@.len() < b@.len() {
            assert(lt_at(a@, b@, i as int));
            lemma_seq_lt_asymmetric(a@, b@);
        } else if b@.len() < a@.len() {
            assert(lt_at(b@, a@, i as int));
            lemma_seq_lt_asymmetric(b@, a@);
        } else {
            assert(a@ =~= b@);
            lemma_seq_lt_irreflexive(a@);
        }
    }
    if a.len() < b.len() {
        Ordering::Less
    } else if b.len() < a.len() {
        Ordering::Greater
    } else {
        Ordering::Equal
    }
}

/// A path in a trie: a sequence of nibbles, the root being the empty path.
/// Paths sort lexicographically.
#[derive(Debug, PartialEq, Eq, PartialOrd, Ord, Hash)]
pub struct Nibbles(pub Vec<u8>);

impl View for Nibbles {
    type V = Seq<u8>;

    open spec fn view(&self) -> Seq<u8> {
        self.0@
    }
}

/// Copies a byte vector.
pub fn copy_bytes(v: &Vec<u8>) -> (r: Vec<u8>)
    ensures
        r@ == v@,
{
    let mut r: Vec<u8> = Vec::with_capacity(v.len());
    let mut i: usize = 0;
    while i < v.len()
        invariant
            i <= v@.len(),
            r@ == v@.take(i as int),
        decreases v.len() - i,
    {
        r.push(v[i]);
        i = i + 1;
        assert(r@ =~= v@.take(i as int));
    }
    assert(r@ =~= v@);
    r
}

impl Clone for Nibbles {
    fn clone(&self) -> (r: Self)
        ensures
            r@ == self@,
    {
        Nibbles(copy_bytes(&self.0))
    }
}

impl Nibbles {
    /// The root path.
    pub fn new() -> (r: Nibbles)
        ensures
            r@ == Seq::<u8>::empty(),
    {
        Nibbles(Vec::new())
    }

    pub fn from_vec(v: Vec<u8>) -> (r: Nibbles)
        ensures
            r@ == v@,
    {
        Nibbles(v)
    }

    pub fn len(&self) -> (r: usize)
        ensures
            r == self@.len(),
    {
        self.0.len()
    }

    pub fn is_empty(&self) -> (r: bool)
        ensures
            r == (self@.len() == 0),
    {
        self.0.len() == 0
    }

    pub fn as_slice(&self) -> (r: &[u8])
        ensures
            r@ == self@,
    {
        self.0.as_slice()
    }

    /// The smallest path that sorts after this one: the path extended by a
    /// zero nibble.
    pub fn successor(&self) -> (r: Nibbles)
        ensures
            r@ == self@.push(0),
    {
        let mut v = copy_bytes(&self.0);
        v.push(0);
        Nibbles(v)
    }
}

/// A 32-byte hash; here the hashed address that names an account's storage trie.
#[derive(Clone, Copy, Debug, PartialEq, Eq, PartialOrd, Ord, Hash)]
pub struct B256(pub [u8; 32]);

impl View for B256 {
    type V = Seq<u8>;

    open spec fn view(&self) -> Seq<u8> {
        self.0@
    }
}

impl B256 {
    pub fn as_slice(&self) -> (r: &[u8])
        ensures
            r@ == self@,
    {
        self.0.as_slice()
    }

    /// Whether two hashes hold the same bytes.
    pub fn same_as(&self, other: &B256) -> (r: bool)
        ensures
            r == (self@ == other@),
    {
        match cmp_bytes(self.as_slice(), other.as_slice()) {
            Ordering::Equal => true,
            _ => false,
        }
    }
}

/// A branch node of the trie in its compact encoding (children presence
/// masks and child hashes). The trie logic carries it without reading it.
#[derive(Debug, PartialEq, Eq)]
pub struct BranchNodeCompact(pub Vec<u8>);

impl View for BranchNodeCompact {
    type V = Seq<u8>;

    open spec fn view(&self) -> Seq<u8> {
        self.0@
    }
}

impl Clone for BranchNodeCompact {
    fn clone(&self) -> (r: Self)
        ensures
            r@ == self@,
    {
        BranchNodeCompact(copy_bytes(&self.0))
    }
}

} // verus!
