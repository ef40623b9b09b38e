//! The conditions that a caller has to handle.

use vstd::prelude::*;

verus! {

/// What went wrong, as a condition that the caller handles.
#[derive(Debug)]
pub enum CicsError {
    /// Storage input or output failed.
    Io(String),
    /// No file of this name is defined.
    FileNotFound(String),
    /// No record with this key is in this file.
    RecordNotFound(Vec<u8>, String),
    /// A record with this key is already in this file.
    DuplicateKey(Vec<u8>, String),
    /// No program of this name is defined.
    ProgramNotFound(String),
    /// Linking to this program would nest too deep.
    LinkStackOverflow(String),
    /// The request cannot be carried out.
    InvalidRequest(String),
    /// There is no such task.
    TaskNotFound(u64),
}

pub type Result<T> = std::result::Result<T, CicsError>;

} // verus!
