//! An embedded transactional store, and a small transaction-processing runtime
//! on top of it: tasks, programs, files of records, and syncpoints.

pub mod error;
pub mod runtime;
pub mod storage;

pub use error::{CicsError, Result};
pub use runtime::{CicsProgram, ExecCtx, ProgramOutcome, Region};
