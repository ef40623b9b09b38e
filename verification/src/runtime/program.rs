//! Program Control: the table of programs by name, and what a program did when
//! it finished. Linking to a program is an ordinary nested call; transferring
//! control is what a program asks for instead of returning.

use std::sync::Arc;

use vstd::hash_map::StringHashMap;
use vstd::prelude::*;

use crate::error::{CicsError, Result};
use crate::runtime::region::ExecCtx;

verus! {

/// What a program did when it finished.
#[derive(Debug)]
pub enum ProgramOutcome {
    /// RETURN: control goes back to whoever linked to the program, or the task
    /// ends if it was the task's first.
    Return { commarea: Option<Vec<u8>> },
    /// XCTL: control goes to another program and does not come back. Whoever
    /// linked to this program gets what that one returns.
    Xctl { program: String, commarea: Option<Vec<u8>> },
}

/// How a chain of programs goes on.
#[derive(Debug)]
pub enum Step {
    /// The chain ends with this.
    End(Result<Option<Vec<u8>>>),
    /// This program is next, with this to work on.
    Next { program: String, commarea: Option<Vec<u8>> },
}

/// What follows from a program's outcome: a return ends the chain with what was
/// returned, an error ends it with the error, and a transfer goes on.
pub fn step_after(outcome: Result<ProgramOutcome>) -> (r: Step)
    ensures
        match outcome {
            Ok(ProgramOutcome::Return { commarea }) => r == Step::End(Ok(commarea)),
            Ok(ProgramOutcome::Xctl { program, commarea }) => r == (Step::Next { program, commarea }),
            Err(e) => r == Step::End(Err(e)),
        },
{
    match outcome {
        Ok(ProgramOutcome::Return { commarea }) => Step::End(Ok(commarea)),
        Ok(ProgramOutcome::Xctl { program, commarea }) => Step::Next { program, commarea },
        Err(e) => Step::End(Err(e)),
    }
}

/// A program that a region can run.
pub trait CicsProgram: Sized {
    /// The program's own promise: a run of it may lead from `before` to `after`
    /// with this outcome. A program that promises nothing allows everything.
    open spec fn allows(&self, before: ExecCtx<Self>, after: ExecCtx<Self>, outcome: Result<ProgramOutcome>) -> bool {
        true
    }

    /// Runs the program. All that it can do to its task, it does through `ctx`.
    fn execute(&self, ctx: &mut ExecCtx<Self>) -> (r: Result<ProgramOutcome>)
        requires
            old(ctx).wf(),
        ensures
            final(ctx).wf(),
            final(ctx).follows(*old(ctx)),
            self.allows(*old(ctx), *final(ctx), r),
    ;
}

/// The programs that are defined, by name.
#[verifier::reject_recursive_types(P)]
pub struct ProgramManager<P> {
    programs: StringHashMap<Arc<P>>,
}

impl<P> View for ProgramManager<P> {
    type V = Map<Seq<char>, P>;

    closed spec fn view(&self) -> Map<Seq<char>, P> {
        self.programs@.map_values(|p: Arc<P>| *p)
    }
}

impl<P> ProgramManager<P> {
    pub fn new() -> (r: ProgramManager<P>)
        ensures
            r@ == Map::<Seq<char>, P>::empty(),
    {
        let r = ProgramManager { programs: StringHashMap::new() };
        assert(r@ =~= Map::<Seq<char>, P>::empty());
        r
    }

    /// Defines a program, in place of one that had the name before.
    pub fn define(&mut self, name: &str, program: P)
        ensures
            final(self)@ == old(self)@.insert(name@, program),
    {
        self.programs.insert(name.to_owned(), Arc::new(program));
        assert(self@ =~= old(self)@.insert(name@, program));
    }

    /// The program of this name.
    pub fn resolve(&self, name: &str) -> (r: Result<Arc<P>>)
        ensures
            match r {
                Ok(program) => self@.contains_key(name@) && *program == self@[name@],
                Err(e) => !self@.contains_key(name@) && is_program_not_found(e, name@),
            },
    {
        match self.programs.get(name) {
            Some(program) => Ok(share(program)),
            None => Err(CicsError::ProgramNotFound(name.to_owned())),
        }
    }
}

/// The error says that no such program is defined.
pub open spec fn is_program_not_found(e: CicsError, program: Seq<char>) -> bool {
    e matches CicsError::ProgramNotFound(name) && name@ == program
}

/// `Arc::clone`: it returns another pointer to the same value.
#[verifier::external_body]
fn share<P>(program: &Arc<P>) -> (r: Arc<P>)
    ensures
        r == *program,
{
    Arc::clone(program)
}

} // verus!
