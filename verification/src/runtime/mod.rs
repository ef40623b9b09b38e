//! The transaction-processing runtime: Task Control, Program Control, File
//! Control and syncpoints, on top of the storage engine.

pub mod file_control;
pub mod laws;
pub mod program;
pub mod region;
pub mod task;

pub use program::{CicsProgram, ProgramManager, ProgramOutcome};
pub use region::{ExecCtx, Region};
pub use task::{Eib, TaskId, TaskIdGenerator};
