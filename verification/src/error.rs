//! The ways in which an extraction can fail.
use vstd::prelude::*;

verus! {

/// Why an extraction did not produce a value.
#[derive(Debug, Clone, Copy, PartialEq, Eq, Structural)]
pub enum ExtractError {
    /// The bytes of the token are not valid UTF-8.
    Encoding,
    /// The destination type does not accept the text of the token.
    Parse,
}

} // verus!
