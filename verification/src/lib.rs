//! Whitespace-delimited tokens, taken one after the other from a stream of
//! bytes and converted into values of the caller's types.
//!
//! - `token` says where the tokens of a sequence of bytes begin and end, and
//!   proves what holds of them.
//! - `cursor` holds a stream of bytes in memory and reads it one byte or one
//!   token at a time.
//! - `text` turns the bytes of a token into text and the text into a value.
//! - `reader` puts these together: `ExtReader` extracts one value after the
//!   other and remembers the first failure.
//! - `error` names the failures.
pub mod cursor;
pub mod error;
pub mod reader;
pub mod text;
pub mod token;

pub use cursor::{accept, read_until, ByteCursor};
pub use error::ExtractError;
pub use reader::{ExtReader, Extractable};
pub use text::{convert, outcome, token_text};
pub use token::DELIMITERS;
