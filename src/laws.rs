//! Laws that relate reading and writing a document.
use vstd::prelude::*;
use crate::codec::{bool_text, int_text, json_quoted};
use crate::command::{get_result, set_error, ToolError};
use crate::document::{find_key, is_first_match, key_absent, lemma_find_absent, lemma_find_first, Entry, Node, Table, Value};
use crate::keypath::{bare_key, lemma_path_text_parses, names, parse_path, path_text, writable};
use crate::resolve::{assign_error, assigned, conflicts, fresh_chain, holds_string, lookup, ResolveError};

verus! {

proof fn lemma_find_some(entries: Seq<Entry>, k: Seq<char>)
    requires
        find_key(entries, k) is Some,
    ensures
        is_first_match(entries, k, find_key(entries, k)->0),
{
}

proof fn lemma_first_exists(entries: Seq<Entry>, k: Seq<char>, j: int)
    requires
        0 <= j < entries.len(),
        entries[j].key@ == k,
    ensures
        find_key(entries, k) is Some,
    decreases j,
{
    if exists|l: int| 0 <= l < j && entries[l].key@ == k {
        let l = choose|l: int| 0 <= l < j && entries[l].key@ == k;
        lemma_first_exists(entries, k, l);
    } else {
        assert(is_first_match(entries, k, j));
    }
}

proof fn lemma_find_none(entries: Seq<Entry>, k: Seq<char>)
    requires
        find_key(entries, k) is None,
    ensures
        key_absent(entries, k),
{
    assert forall|j: int| 0 <= j < entries.len() implies entries[j].key@ != k by {
        if entries[j].key@ == k {
            lemma_first_exists(entries, k, j);
        }
    }
}

proof fn lemma_fresh_lookup(t: Table, path: Seq<Seq<char>>, v: Seq<char>)
    requires
        path.len() > 0,
        fresh_chain(Node::Table(t), path, v),
    ensures
        lookup(t, path) matches Ok(n) && holds_string(n, v),
    decreases path.len(),
{
    assert(is_first_match(t.entries@, path[0], 0));
    lemma_find_first(t.entries@, path[0], 0);
    assert(fresh_chain(t.entries@[0].node, path.drop_first(), v));
    if path.len() == 1 {
        assert(holds_string(t.entries@[0].node, v));
    } else {
        if let Node::Table(sub) = t.entries@[0].node {
            lemma_fresh_lookup(sub, path.drop_first(), v);
        }
    }
}

/// After the string `v` is written at `path`, reading `path` gives back the string `v`.
pub proof fn lemma_read_after_write(old: Table, path: Seq<Seq<char>>, v: Seq<char>, new: Table)
    requires
        assigned(old, path, v, new),
    ensures
        lookup(new, path) matches Ok(n) && holds_string(n, v),
    decreases path.len(),
{
    let (o, n) = (old.entries@, new.entries@);
    let k = path[0];
    match find_key(o, k) {
        None => {
            lemma_find_none(o, k);
            assert forall|j: int| 0 <= j < o.len() implies n[j].key@ != k by {
                assert(n[j] == n.take(o.len() as int)[j]);
            }
            assert(is_first_match(n, k, o.len() as int));
            lemma_find_first(n, k, o.len() as int);
            if path.len() > 1 {
                if let Node::Table(sub) = n[o.len() as int].node {
                    lemma_fresh_lookup(sub, path.drop_first(), v);
                }
            }
        },
        Some(i) => {
            lemma_find_some(o, k);
            assert(is_first_match(n, k, i));
            lemma_find_first(n, k, i);
            if path.len() > 1 {
                if let (Node::Table(a), Node::Table(b)) = (o[i].node, n[i].node) {
                    lemma_read_after_write(a, path.drop_first(), v, b);
                }
            }
        },
    }
}

/// A path that reading finds going through a value as if it were a table is refused for
/// writing too, with a type conflict.
pub proof fn lemma_through_value_refused(t: Table, path: Seq<Seq<char>>)
    requires
        lookup(t, path) == Err::<Node, ResolveError>(ResolveError::TypeConflict),
    ensures
        conflicts(t, path),
        assign_error(t, path) == Some(ResolveError::TypeConflict),
    decreases path.len(),
{
    if path.len() > 1 {
        if let Some(i) = find_key(t.entries@, path[0]) {
            if let Node::Table(sub) = t.entries@[i].node {
                lemma_through_value_refused(sub, path.drop_first());
            }
        }
    }
}

/// `q` and `p` differ at some position that both have: neither is a prefix of the other.
pub open spec fn diverge(q: Seq<Seq<char>>, p: Seq<Seq<char>>) -> bool {
    exists|i: int| 0 <= i < q.len() && i < p.len() && q[i] != p[i]
}

proof fn lemma_diverge_tail(q: Seq<Seq<char>>, p: Seq<Seq<char>>)
    requires
        diverge(q, p),
        q.len() > 0,
        p.len() > 0,
        q[0] == p[0],
    ensures
        diverge(q.drop_first(), p.drop_first()),
        q.len() > 1,
        p.len() > 1,
{
    let i = choose|i: int| 0 <= i < q.len() && i < p.len() && q[i] != p[i];
    assert(q.drop_first()[i - 1] == q[i]);
    assert(p.drop_first()[i - 1] == p[i]);
}

proof fn lemma_fresh_other(t: Table, p: Seq<Seq<char>>, v: Seq<char>, q: Seq<Seq<char>>)
    requires
        fresh_chain(Node::Table(t), p, v),
        p.len() > 0,
        diverge(q, p),
    ensures
        lookup(t, q) == Err::<Node, ResolveError>(ResolveError::NotFound),
    decreases p.len(),
{
    let e = t.entries@;
    if q[0] != p[0] {
        lemma_find_absent(e, q[0]);
    } else {
        lemma_diverge_tail(q, p);
        assert(is_first_match(e, q[0], 0));
        lemma_find_first(e, q[0], 0);
        assert(fresh_chain(e[0].node, p.drop_first(), v));
        assert(e[0].node is Table);
        if let Node::Table(sub) = e[0].node {
            lemma_fresh_other(sub, p.drop_first(), v, q.drop_first());
        }
    }
}

/// Writing at `path` changes what no other path names: reading any path that parts from
/// `path` (neither leads to the other) gives what it gave before the write.
pub proof fn lemma_write_keeps_other_paths(
    old: Table,
    path: Seq<Seq<char>>,
    v: Seq<char>,
    new: Table,
    q: Seq<Seq<char>>,
)
    requires
        assigned(old, path, v, new),
        diverge(q, path),
    ensures
        lookup(new, q) == lookup(old, q),
    decreases path.len(),
{
    let (o, n) = (old.entries@, new.entries@);
    let k = path[0];
    match find_key(o, k) {
        None => {
            lemma_find_none(o, k);
            if q[0] != k {
                match find_key(o, q[0]) {
                    None => {
                        lemma_find_none(o, q[0]);
                        assert forall|j: int| 0 <= j < n.len() implies n[j].key@ != q[0] by {
                            if j < o.len() {
                                assert(n[j] == n.take(o.len() as int)[j]);
                            }
                        }
                        lemma_find_absent(n, q[0]);
                    },
                    Some(i) => {
                        lemma_find_some(o, q[0]);
                        assert forall|j: int| 0 <= j < o.len() implies n[j] == o[j] by {
                            assert(n[j] == n.take(o.len() as int)[j]);
                        }
                        assert(is_first_match(n, q[0], i));
                        lemma_find_first(n, q[0], i);
                    },
                }
            } else {
                lemma_diverge_tail(q, path);
                assert forall|j: int| 0 <= j < o.len() implies n[j].key@ != k by {
                    assert(n[j] == n.take(o.len() as int)[j]);
                }
                assert(is_first_match(n, k, o.len() as int));
                lemma_find_first(n, k, o.len() as int);
                if let Node::Table(sub) = n[o.len() as int].node {
                    lemma_fresh_other(sub, path.drop_first(), v, q.drop_first());
                }
            }
        },
        Some(i) => {
            lemma_find_some(o, k);
            assert forall|j: int| 0 <= j < o.len() implies n[j].key@ == o[j].key@ by {
                if j != i {
                    assert(n[j] == o[j]);
                }
            }
            match find_key(o, q[0]) {
                None => {
                    lemma_find_none(o, q[0]);
                    lemma_find_absent(n, q[0]);
                },
                Some(l) => {
                    lemma_find_some(o, q[0]);
                    assert(is_first_match(n, q[0], l));
                    lemma_find_first(n, q[0], l);
                    if q[0] == k {
                        lemma_diverge_tail(q, path);
                        if path.len() > 1 {
                            if let (Node::Table(a), Node::Table(b)) = (o[i].node, n[i].node) {
                                lemma_write_keeps_other_paths(a, path.drop_first(), v, b, q.drop_first());
                            }
                        }
                    }
                },
            }
        },
    }
}

/// Once `set` has written the string `v` at the path written `path`, `get` on that path prints
/// the JSON form of `v`.
pub proof fn lemma_get_after_set(old: Table, path: Seq<char>, v: Seq<char>, new: Table)
    requires
        set_error(old, path) is None,
        assigned(old, names(parse_path(path)->0), v, new),
    ensures
        get_result(new, path, false) == Ok::<Seq<char>, ToolError>(json_quoted(v).push('\n')),
{
    lemma_read_after_write(old, names(parse_path(path)->0), v, new);
}

/// A path on which `get` finds a value where a table should be is refused by `set` with a type
/// conflict, and `set` then leaves the document as it was.
pub proof fn lemma_set_through_value_refused(doc: Table, path: Seq<char>, raw: bool)
    requires
        get_result(doc, path, raw) == Err::<Seq<char>, ToolError>(ToolError::TypeConflict),
    ensures
        set_error(doc, path) == Some(ToolError::TypeConflict),
{
    lemma_through_value_refused(doc, names(parse_path(path)->0));
}

/// `get` prints a string value as its JSON string literal, and with `raw` as its bare content,
/// each followed by a newline.
pub proof fn lemma_get_string(doc: Table, path: Seq<char>, s: String)
    requires
        parse_path(path) is Some,
        lookup(doc, names(parse_path(path)->0)) == Ok::<Node, ResolveError>(Node::Leaf(Value::Str(s))),
    ensures
        get_result(doc, path, false) == Ok::<Seq<char>, ToolError>(json_quoted(s@).push('\n')),
        get_result(doc, path, true) == Ok::<Seq<char>, ToolError>(s@.push('\n')),
{
}

/// `get` prints an integer or a boolean value as its JSON literal followed by a newline.
pub proof fn lemma_get_int_bool(doc: Table, path: Seq<char>, x: i64, b: bool)
    requires
        parse_path(path) is Some,
    ensures
        lookup(doc, names(parse_path(path)->0)) == Ok::<Node, ResolveError>(Node::Leaf(Value::Int(x)))
            ==> get_result(doc, path, false) == Ok::<Seq<char>, ToolError>(int_text(x as int).push('\n')),
        lookup(doc, names(parse_path(path)->0)) == Ok::<Node, ResolveError>(Node::Leaf(Value::Bool(b)))
            ==> get_result(doc, path, false) == Ok::<Seq<char>, ToolError>(bool_text(b).push('\n')),
{
}

/// Paths that name the same keys resolve alike however each key is written (bare or quoted)
/// and however many spaces stand around the dots: `get` gives the same result for each.
pub proof fn lemma_path_forms_agree(
    doc: Table,
    p: Seq<(Seq<char>, bool)>,
    q: Seq<(Seq<char>, bool)>,
    a: nat,
    b: nat,
    raw: bool,
)
    requires
        p.len() >= 1,
        q.len() >= 1,
        writable(p),
        writable(q),
        names(p) == names(q),
    ensures
        get_result(doc, path_text(p, a, b), raw) == get_result(doc, path_text(q, 0, 0), raw),
{
    lemma_path_text_parses(p, a, b);
    lemma_path_text_parses(q, 0, 0);
}

/// `get` on a path of bare keys joined by dots that names a string prints the string's JSON
/// literal followed by a newline.
pub proof fn lemma_get_bare_path(doc: Table, p: Seq<(Seq<char>, bool)>, s: String)
    requires
        p.len() >= 1,
        forall|i: int| 0 <= i < p.len() ==> !(#[trigger] p[i]).1 && bare_key(p[i].0),
        lookup(doc, names(p)) == Ok::<Node, ResolveError>(Node::Leaf(Value::Str(s))),
    ensures
        get_result(doc, path_text(p, 0, 0), false) == Ok::<Seq<char>, ToolError>(json_quoted(s@).push('\n')),
{
    assert(writable(p));
    lemma_path_text_parses(p, 0, 0);
}

} // verus!
