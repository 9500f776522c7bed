//! Indexing and parsing of a directory of plain-text notes.

pub mod text;
pub mod parse;
pub mod error;
mod foreign;
pub mod dates;
pub mod note;
pub mod notebook;
pub mod markup;
