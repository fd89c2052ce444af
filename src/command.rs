//! The two operations on a document: reading a value and writing one.
use vstd::prelude::*;
use crate::codec::{render, rendered, RenderError};
use crate::document::{Node, Table};
use crate::keypath::{names, parse_path, KeyPath};
use crate::resolve::{assign, assign_error, assigned, get_node, lookup, ResolveError};

verus! {

/// Why an operation failed.
#[derive(Debug, Clone, Copy, PartialEq, Eq, Structural)]
pub enum ToolError {
    /// The key path is malformed.
    PathSyntax,
    /// A key of the path is missing.
    NotFound,
    /// The path goes through a value as if it were a table, or would overwrite a table.
    TypeConflict,
    /// Raw output was asked for a value that is not a string.
    NotAString,
    /// The value is of a kind that is not rendered.
    Unsupported,
}

pub open spec fn from_resolve(e: ResolveError) -> ToolError {
    match e {
        ResolveError::NotFound => ToolError::NotFound,
        ResolveError::TypeConflict => ToolError::TypeConflict,
    }
}

pub open spec fn from_render(e: RenderError) -> ToolError {
    match e {
        RenderError::NotAString => ToolError::NotAString,
        RenderError::Unsupported => ToolError::Unsupported,
    }
}

/// What `get` prints for the path written `path` in `doc`, or why it fails.
pub open spec fn get_result(doc: Table, path: Seq<char>, raw: bool) -> Result<Seq<char>, ToolError> {
    match parse_path(path) {
        None => Err(ToolError::PathSyntax),
        Some(p) => match lookup(doc, names(p)) {
            Err(e) => Err(from_resolve(e)),
            Ok(n) => match rendered(n, raw) {
                Err(e) => Err(from_render(e)),
                Ok(s) => Ok(s),
            },
        },
    }
}

/// Why `set` at the path written `path` in `doc` fails, if it does.
pub open spec fn set_error(doc: Table, path: Seq<char>) -> Option<ToolError> {
    match parse_path(path) {
        None => Some(ToolError::PathSyntax),
        Some(p) => match assign_error(doc, names(p)) {
            Some(e) => Some(from_resolve(e)),
            None => None,
        },
    }
}

fn resolve_error(e: ResolveError) -> (r: ToolError)
    ensures
        r == from_resolve(e),
{
    match e {
        ResolveError::NotFound => ToolError::NotFound,
        ResolveError::TypeConflict => ToolError::TypeConflict,
    }
}

fn render_error(e: RenderError) -> (r: ToolError)
    ensures
        r == from_render(e),
{
    match e {
        RenderError::NotAString => ToolError::NotAString,
        RenderError::Unsupported => ToolError::Unsupported,
    }
}

/// The text that `get` prints for the value at `path`: JSON, or with `raw` a string's bare
/// content, followed by a newline.
pub fn get_value(doc: &Table, path: &str, raw: bool) -> (r: Result<String, ToolError>)
    ensures
        match r {
            Ok(s) => get_result(*doc, path@, raw) == Ok::<Seq<char>, ToolError>(s@),
            Err(e) => get_result(*doc, path@, raw) == Err::<Seq<char>, ToolError>(e),
        },
{
    let p = match KeyPath::parse(path) {
        Ok(p) => p,
        Err(_) => {
            return Err(ToolError::PathSyntax);
        },
    };
    let keys = p.keys();
    let n: &Node = match get_node(doc, &keys) {
        Ok(n) => n,
        Err(e) => {
            return Err(resolve_error(e));
        },
    };
    match render(n, raw) {
        Ok(s) => Ok(s),
        Err(e) => Err(render_error(e)),
    }
}

/// Writes the string `value` at `path`: an existing value is replaced where it stands, a
/// missing key is appended to its table, and missing tables on the way are created.
/// On an error the document is left as it was.
pub fn set_value(doc: &mut Table, path: &str, value: String) -> (r: Result<(), ToolError>)
    ensures
        match set_error(*old(doc), path@) {
            Some(e) => r == Err::<(), ToolError>(e) && *final(doc) == *old(doc),
            None => r is Ok && assigned(
                *old(doc),
                names(parse_path(path@)->0),
                value@,
                *final(doc),
            ),
        },
{
    let p = match KeyPath::parse(path) {
        Ok(p) => p,
        Err(_) => {
            return Err(ToolError::PathSyntax);
        },
    };
    let keys = p.keys();
    match assign(doc, &keys, value) {
        Ok(()) => Ok(()),
        Err(e) => Err(resolve_error(e)),
    }
}

} // verus!
