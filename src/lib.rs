//! Reading and editing values of a TOML document addressed by a dotted key path.
use vstd::prelude::*;

pub mod codec;
pub mod command;
pub mod document;
pub mod keypath;
pub mod laws;
pub mod resolve;
mod text;

verus! {

/// Whether two texts are equal, character for character.
pub fn check_eq(expected: &str, actual: &str) -> (r: bool)
    ensures
        r == (expected@ == actual@),
{
    expected.to_owned() == actual.to_owned()
}

} // verus!
