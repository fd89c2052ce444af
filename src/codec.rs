//! Rendering a resolved value as the text that `get` prints.
use vstd::prelude::*;
use crate::document::{Node, Value};
use crate::text::string_of;

verus! {

/// The JSON string literal that stands for the text `s`.
pub uninterp spec fn json_quoted(s: Seq<char>) -> Seq<char>;

/// Relies on `serde_json::to_string` on a `str`: the JSON string literal for `s`, quotes and
/// escapes included. Serialising a `str` into memory does not fail.
#[verifier::external_body]
fn json_string(s: &str) -> (r: String)
    ensures
        r@ == json_quoted(s@),
{
    match serde_json::to_string(s) {
        Ok(t) => t,
        Err(_) => String::new(),
    }
}

/// Why a value cannot be rendered.
#[derive(Debug, Clone, Copy, PartialEq, Eq, Structural)]
pub enum RenderError {
    /// Raw output was asked for a value that is not a string.
    NotAString,
    /// The value is a table, or a kind of value that is not rendered (float, datetime, array,
    /// inline table).
    Unsupported,
}

/// The decimal digit for `d < 10`.
pub open spec fn digit(d: nat) -> char {
    ((d + 48) as u8) as char
}

/// The decimal digits of `n`, without leading zeros.
pub open spec fn decimal(n: nat) -> Seq<char>
    decreases n,
{
    if n < 10 {
        seq![digit(n)]
    } else {
        decimal(n / 10).push(digit(n % 10))
    }
}

/// The JSON number literal of the integer `i`.
pub open spec fn int_text(i: int) -> Seq<char> {
    if i < 0 {
        seq!['-'] + decimal((-i) as nat)
    } else {
        decimal(i as nat)
    }
}

/// The JSON literal of the boolean `b`.
pub open spec fn bool_text(b: bool) -> Seq<char> {
    if b {
        seq!['t', 'r', 'u', 'e']
    } else {
        seq!['f', 'a', 'l', 's', 'e']
    }
}

/// What `get` prints for the node `n`: its JSON form, or with `raw` a string's bare content,
/// followed by a newline.
pub open spec fn rendered(n: Node, raw: bool) -> Result<Seq<char>, RenderError> {
    match n {
        Node::Leaf(Value::Str(s)) => Ok(
            if raw {
                s@.push('\n')
            } else {
                json_quoted(s@).push('\n')
            },
        ),
        Node::Leaf(Value::Int(i)) => if raw {
            Err(RenderError::NotAString)
        } else {
            Ok(int_text(i as int).push('\n'))
        },
        Node::Leaf(Value::Bool(b)) => if raw {
            Err(RenderError::NotAString)
        } else {
            Ok(bool_text(b).push('\n'))
        },
        _ => if raw {
            Err(RenderError::NotAString)
        } else {
            Err(RenderError::Unsupported)
        },
    }
}

fn push_decimal(n: u64, out: &mut Vec<char>)
    ensures
        final(out)@ == old(out)@ + decimal(n as nat),
    decreases n,
{
    if n >= 10 {
        push_decimal(n / 10, out);
    }
    let d: u64 = n % 10;
    out.push(((d as u8) + 48u8) as char);
    proof {
        if n >= 10 {
            assert(old(out)@ + decimal(n as nat) =~= old(out)@ + decimal((n / 10) as nat) + seq![
                digit((n % 10) as nat),
            ]);
        }
    }
}

/// The JSON number literal of `i`.
pub fn int_literal(i: i64) -> (r: String)
    ensures
        r@ == int_text(i as int),
{
    let mut cs: Vec<char> = Vec::new();
    if i < 0 {
        cs.push('-');
        let m: u64 = ((-(i + 1)) as u64) + 1;
        push_decimal(m, &mut cs);
    } else {
        push_decimal(i as u64, &mut cs);
    }
    string_of(&cs)
}

/// `text` followed by a newline.
pub fn finish_line(text: String) -> (r: String)
    ensures
        r@ == text@.push('\n'),
{
    proof {
        reveal_strlit("\n");
    }
    let r = text.concat("\n");
    assert(r@ =~= text@.push('\n'));
    r
}

/// The text that `get` prints for `n`.
pub fn render(n: &Node, raw: bool) -> (r: Result<String, RenderError>)
    ensures
        match r {
            Ok(s) => rendered(*n, raw) == Ok::<Seq<char>, RenderError>(s@),
            Err(e) => rendered(*n, raw) == Err::<Seq<char>, RenderError>(e),
        },
{
    match n {
        Node::Leaf(Value::Str(s)) => {
            if raw {
                Ok(finish_line(s.clone()))
            } else {
                Ok(finish_line(json_string(s.as_str())))
            }
        },
        Node::Leaf(Value::Int(i)) => {
            if raw {
                Err(RenderError::NotAString)
            } else {
                Ok(finish_line(int_literal(*i)))
            }
        },
        Node::Leaf(Value::Bool(b)) => {
            if raw {
                Err(RenderError::NotAString)
            } else if *b {
                proof {
                    reveal_strlit("true");
                }
                let t = "true".to_owned();
                assert(t@ =~= bool_text(true));
                Ok(finish_line(t))
            } else {
                proof {
                    reveal_strlit("false");
                }
                let t = "false".to_owned();
                assert(t@ =~= bool_text(false));
                Ok(finish_line(t))
            }
        },
        _ => {
            if raw {
                Err(RenderError::NotAString)
            } else {
                Err(RenderError::Unsupported)
            }
        },
    }
}

} // verus!
