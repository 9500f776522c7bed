//! The errors of loading and parsing notes.

use vstd::prelude::*;

verus! {

/// Why loading or reloading notes failed.
#[derive(Debug)]
pub enum Error {
    /// The root has no marker directory.
    NotANotebook(String),
    /// A file or its metadata could not be read.
    Io(std::io::Error),
    /// A preamble is not valid YAML; `path` names the note, `message` says
    /// what the YAML reader met.
    Yaml { path: String, message: String },
}

impl Error {
    pub open spec fn is_not_a_notebook(&self, root: Seq<char>) -> bool {
        match self {
            Error::NotANotebook(p) => p@ == root,
            _ => false,
        }
    }

    pub open spec fn is_yaml_for(&self, p: Seq<char>) -> bool {
        match self {
            Error::Yaml { path, .. } => path@ == p,
            _ => false,
        }
    }
}

} // verus!
