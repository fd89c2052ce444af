//! The in-memory document: an ordered tree of named entries.
use vstd::prelude::*;

verus! {

/// A leaf value of the document.
#[derive(Debug, Clone, PartialEq, Eq)]
pub enum Value {
    Str(String),
    Int(i64),
    Bool(bool),
    /// Any other TOML value (float, datetime, array, inline table), kept as its TOML text.
    Other(String),
}

/// A node of the tree: a nested table or a leaf value.
#[derive(Debug, PartialEq, Eq)]
pub enum Node {
    Table(Table),
    Leaf(Value),
}

/// One named entry of a table.
#[derive(Debug, PartialEq, Eq)]
pub struct Entry {
    pub key: String,
    pub node: Node,
}

/// A table: entries in the order in which they were written or added.
#[derive(Debug, PartialEq, Eq)]
pub struct Table {
    pub entries: Vec<Entry>,
}

/// `i` is the first position of `entries` whose key is `k`.
pub open spec fn is_first_match(entries: Seq<Entry>, k: Seq<char>, i: int) -> bool {
    &&& 0 <= i < entries.len()
    &&& entries[i].key@ == k
    &&& forall|j: int| 0 <= j < i ==> entries[j].key@ != k
}

/// No entry of `entries` has the key `k`.
pub open spec fn key_absent(entries: Seq<Entry>, k: Seq<char>) -> bool {
    forall|j: int| 0 <= j < entries.len() ==> entries[j].key@ != k
}

/// The position of the entry that the key `k` names in `entries`: the first one with that key.
pub open spec fn find_key(entries: Seq<Entry>, k: Seq<char>) -> Option<int> {
    if exists|i: int| is_first_match(entries, k, i) {
        Some(choose|i: int| is_first_match(entries, k, i))
    } else {
        None
    }
}

pub proof fn lemma_find_first(entries: Seq<Entry>, k: Seq<char>, i: int)
    requires
        is_first_match(entries, k, i),
    ensures
        find_key(entries, k) == Some(i),
{
    let c = choose|c: int| is_first_match(entries, k, c);
    assert(is_first_match(entries, k, c));
    if c < i {
        assert(entries[c].key@ != k);
    } else if i < c {
        assert(entries[i].key@ != k);
    }
}

pub proof fn lemma_find_absent(entries: Seq<Entry>, k: Seq<char>)
    requires
        key_absent(entries, k),
    ensures
        find_key(entries, k) is None,
{
    if exists|i: int| is_first_match(entries, k, i) {
        let c = choose|c: int| is_first_match(entries, k, c);
        assert(entries[c].key@ != k);
    }
}

impl Node {
    /// Whether the node is a table.
    pub fn is_table(&self) -> (r: bool)
        ensures
            r == (self is Table),
    {
        match self {
            Node::Table(_) => true,
            Node::Leaf(_) => false,
        }
    }
}

impl Table {
    /// An empty table.
    pub fn new() -> (r: Table)
        ensures
            r.entries@.len() == 0,
    {
        Table { entries: Vec::new() }
    }

    /// The position of the entry with key `k`, if there is one.
    pub fn position(&self, k: &String) -> (r: Option<usize>)
        ensures
            match r {
                Some(i) => find_key(self.entries@, k@) == Some(i as int),
                None => find_key(self.entries@, k@) is None,
            },
            r matches Some(i) ==> i < self.entries@.len(),
    {
        let n = self.entries.len();
        let mut i: usize = 0;
        while i < n
            invariant
                n == self.entries@.len(),
                i <= n,
                key_absent(self.entries@.take(i as int), k@),
            decreases n - i,
        {
            if self.entries[i].key == *k {
                proof {
                    assert(forall|j: int| 0 <= j < i ==> self.entries@.take(i as int)[j] == self.entries@[j]);
                    lemma_find_first(self.entries@, k@, i as int);
                }
                return Some(i);
            }
            proof {
                assert(forall|j: int| 0 <= j < i ==> self.entries@.take(i as int)[j] == self.entries@[j]);
                assert(forall|j: int| 0 <= j <= i ==> self.entries@.take(i + 1)[j] == self.entries@[j]);
            }
            i = i + 1;
        }
        proof {
            assert(self.entries@.take(n as int) =~= self.entries@);
            lemma_find_absent(self.entries@, k@);
        }
        None
    }

    /// Appends an entry at the end of the table.
    pub fn push(&mut self, key: String, node: Node)
        ensures
            final(self).entries@ == old(self).entries@.push(Entry { key, node }),
    {
        self.entries.push(Entry { key, node });
    }
}

} // verus!
