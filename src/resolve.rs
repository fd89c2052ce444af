//! Resolving a key path against a document: lookup for reading, assignment for writing.
use vstd::prelude::*;
use crate::document::{find_key, Entry, Node, Table, Value};

verus! {

/// Why a key path could not be resolved.
#[derive(Debug, Clone, Copy, PartialEq, Eq, Structural)]
pub enum ResolveError {
    /// A key on the path is not in its table.
    NotFound,
    /// The path goes through a leaf value as if it were a table, or would overwrite a table.
    TypeConflict,
}

/// The key texts of a sequence of strings.
pub open spec fn key_texts(keys: Seq<String>) -> Seq<Seq<char>> {
    keys.map_values(|s: String| s@)
}

/// What a path names in a table when it is only read.
pub open spec fn lookup(t: Table, path: Seq<Seq<char>>) -> Result<Node, ResolveError>
    decreases path.len(),
{
    if path.len() == 0 {
        Err(ResolveError::NotFound)
    } else {
        match find_key(t.entries@, path[0]) {
            None => Err(ResolveError::NotFound),
            Some(i) => if path.len() == 1 {
                Ok(t.entries@[i].node)
            } else {
                match t.entries@[i].node {
                    Node::Table(sub) => lookup(sub, path.drop_first()),
                    Node::Leaf(_) => Err(ResolveError::TypeConflict),
                }
            },
        }
    }
}

/// Writing at `path` would go through a leaf, or would overwrite a table with a value.
pub open spec fn conflicts(t: Table, path: Seq<Seq<char>>) -> bool
    decreases path.len(),
{
    if path.len() == 0 {
        false
    } else {
        match find_key(t.entries@, path[0]) {
            None => false,
            Some(i) => if path.len() == 1 {
                t.entries@[i].node is Table
            } else {
                match t.entries@[i].node {
                    Node::Table(sub) => conflicts(sub, path.drop_first()),
                    Node::Leaf(_) => true,
                }
            },
        }
    }
}

/// The error of a write at `path`, if it fails.
pub open spec fn assign_error(t: Table, path: Seq<Seq<char>>) -> Option<ResolveError> {
    if path.len() == 0 {
        Some(ResolveError::NotFound)
    } else if conflicts(t, path) {
        Some(ResolveError::TypeConflict)
    } else {
        None
    }
}

/// `n` is the string leaf `v`.
pub open spec fn holds_string(n: Node, v: Seq<char>) -> bool {
    n matches Node::Leaf(Value::Str(s)) && s@ == v
}

/// `n` is a chain of new tables, one key each along `path`, that ends in the string `v`.
pub open spec fn fresh_chain(n: Node, path: Seq<Seq<char>>, v: Seq<char>) -> bool
    decreases path.len(),
{
    if path.len() == 0 {
        holds_string(n, v)
    } else {
        match n {
            Node::Table(t) => {
                &&& t.entries@.len() == 1
                &&& t.entries@[0].key@ == path[0]
                &&& fresh_chain(t.entries@[0].node, path.drop_first(), v)
            },
            Node::Leaf(_) => false,
        }
    }
}

/// `new` is `old` with the string `v` written at `path`: an existing entry is replaced where
/// it stands, a missing one is appended to the end of its table, and nothing else changes.
pub open spec fn assigned(old: Table, path: Seq<Seq<char>>, v: Seq<char>, new: Table) -> bool
    decreases path.len(),
{
    let (o, n) = (old.entries@, new.entries@);
    if path.len() == 0 {
        false
    } else {
        match find_key(o, path[0]) {
            None => {
                &&& n.len() == o.len() + 1
                &&& n.take(o.len() as int) == o
                &&& n.last().key@ == path[0]
                &&& fresh_chain(n.last().node, path.drop_first(), v)
            },
            Some(i) => {
                &&& n.len() == o.len()
                &&& forall|j: int| 0 <= j < o.len() && j != i ==> n[j] == o[j]
                &&& n[i].key == o[i].key
                &&& if path.len() == 1 {
                    holds_string(n[i].node, v)
                } else {
                    match (o[i].node, n[i].node) {
                        (Node::Table(a), Node::Table(b)) => assigned(a, path.drop_first(), v, b),
                        _ => false,
                    }
                }
            },
        }
    }
}

proof fn lemma_skip_step(keys: Seq<String>, idx: int)
    requires
        0 <= idx < keys.len(),
    ensures
        key_texts(keys).skip(idx).len() == keys.len() - idx,
        key_texts(keys).skip(idx)[0] == keys[idx]@,
        key_texts(keys).skip(idx).drop_first() == key_texts(keys).skip(idx + 1),
{
    assert(key_texts(keys).skip(idx).drop_first() =~= key_texts(keys).skip(idx + 1));
}

fn lookup_from<'a>(t: &'a Table, keys: &Vec<String>, idx: usize) -> (r: Result<&'a Node, ResolveError>)
    requires
        idx <= keys@.len(),
    ensures
        match r {
            Ok(n) => lookup(*t, key_texts(keys@).skip(idx as int)) == Ok::<Node, ResolveError>(*n),
            Err(e) => lookup(*t, key_texts(keys@).skip(idx as int)) == Err::<Node, ResolveError>(e),
        },
    decreases keys@.len() - idx,
{
    if idx == keys.len() {
        return Err(ResolveError::NotFound);
    }
    proof {
        lemma_skip_step(keys@, idx as int);
    }
    match t.position(&keys[idx]) {
        None => Err(ResolveError::NotFound),
        Some(i) => {
            if idx + 1 == keys.len() {
                Ok(&t.entries[i].node)
            } else {
                match &t.entries[i].node {
                    Node::Table(sub) => lookup_from(sub, keys, idx + 1),
                    Node::Leaf(_) => Err(ResolveError::TypeConflict),
                }
            }
        },
    }
}

/// The node that `keys` names in `t`.
pub fn get_node<'a>(t: &'a Table, keys: &Vec<String>) -> (r: Result<&'a Node, ResolveError>)
    ensures
        match r {
            Ok(n) => lookup(*t, key_texts(keys@)) == Ok::<Node, ResolveError>(*n),
            Err(e) => lookup(*t, key_texts(keys@)) == Err::<Node, ResolveError>(e),
        },
{
    assert(key_texts(keys@).skip(0) =~= key_texts(keys@));
    lookup_from(t, keys, 0)
}

fn conflicts_from(t: &Table, keys: &Vec<String>, idx: usize) -> (r: bool)
    requires
        idx <= keys@.len(),
    ensures
        r == conflicts(*t, key_texts(keys@).skip(idx as int)),
    decreases keys@.len() - idx,
{
    if idx == keys.len() {
        return false;
    }
    proof {
        lemma_skip_step(keys@, idx as int);
    }
    match t.position(&keys[idx]) {
        None => false,
        Some(i) => {
            if idx + 1 == keys.len() {
                t.entries[i].node.is_table()
            } else {
                match &t.entries[i].node {
                    Node::Table(sub) => conflicts_from(sub, keys, idx + 1),
                    Node::Leaf(_) => true,
                }
            }
        },
    }
}

fn fresh_node(keys: &Vec<String>, idx: usize, v: String) -> (n: Node)
    requires
        idx <= keys@.len(),
    ensures
        fresh_chain(n, key_texts(keys@).skip(idx as int), v@),
    decreases keys@.len() - idx,
{
    if idx == keys.len() {
        Node::Leaf(Value::Str(v))
    } else {
        proof {
            lemma_skip_step(keys@, idx as int);
        }
        let sub = fresh_node(keys, idx + 1, v);
        let mut t = Table::new();
        t.push(keys[idx].clone(), sub);
        Node::Table(t)
    }
}

fn assign_from(t: &mut Table, keys: &Vec<String>, idx: usize, v: String)
    requires
        idx < keys@.len(),
        !conflicts(*old(t), key_texts(keys@).skip(idx as int)),
    ensures
        assigned(*old(t), key_texts(keys@).skip(idx as int), v@, *final(t)),
    decreases keys@.len() - idx,
{
    proof {
        lemma_skip_step(keys@, idx as int);
    }
    let ghost o = t.entries@;
    let n_keys = keys.len();
    let last = idx + 1 == n_keys;
    match t.position(&keys[idx]) {
        None => {
            let n = fresh_node(keys, idx + 1, v);
            t.push(keys[idx].clone(), n);
            assert(t.entries@.take(o.len() as int) =~= o);
        },
        Some(i) => {
            let e = t.entries.remove(i);
            let Entry { key, node } = e;
            if last {
                t.entries.insert(i, Entry { key, node: Node::Leaf(Value::Str(v)) });
            } else {
                match node {
                    Node::Table(sub) => {
                        let mut sub = sub;
                        assign_from(&mut sub, keys, idx + 1, v);
                        t.entries.insert(i, Entry { key, node: Node::Table(sub) });
                    },
                    Node::Leaf(val) => {
                        t.entries.insert(i, Entry { key, node: Node::Leaf(val) });
                    },
                }
            }
            assert(forall|j: int| 0 <= j < o.len() && j != i ==> t.entries@[j] == o[j]);
        },
    }
}

/// Writes the string `v` at `keys` in `t`, creating the missing tables on the way.
/// On an error nothing is changed.
pub fn assign(t: &mut Table, keys: &Vec<String>, v: String) -> (r: Result<(), ResolveError>)
    ensures
        match assign_error(*old(t), key_texts(keys@)) {
            Some(e) => r == Err::<(), ResolveError>(e) && *final(t) == *old(t),
            None => r is Ok && assigned(*old(t), key_texts(keys@), v@, *final(t)),
        },
{
    assert(key_texts(keys@).skip(0) =~= key_texts(keys@));
    if keys.len() == 0 {
        return Err(ResolveError::NotFound);
    }
    if conflicts_from(t, keys, 0) {
        return Err(ResolveError::TypeConflict);
    }
    assign_from(t, keys, 0, v);
    Ok(())
}

} // verus!
