//! A region runs tasks: it ties Task Control, Program Control and File Control
//! to the store. A task that returns normally commits its unit of work; one
//! that ends with an error has it backed out.

use std::collections::VecDeque;
use std::sync::Arc;

use vstd::prelude::*;

use crate::error::{CicsError, Result};
use crate::runtime::file_control::{
    self, can_be_browsed, is_browse, is_compact, is_delete, is_modest, is_new, is_read, is_rewrite, is_there, is_write,
    record_fits, record_within_budget, stored_key, FileControlTable, FileId,
};
use crate::runtime::program::{is_program_not_found, step_after, CicsProgram, ProgramManager, ProgramOutcome, Step};
use crate::runtime::task::{following, Eib, TaskId, TaskIdGenerator};
use crate::storage::btree::bound_of;
use crate::storage::chain::chained;
use crate::storage::freelist::{last_chunk_first, FreeListPage};
use crate::storage::pager::{
    changes_of, first_changes, first_file, first_meta, is_corrupt, recovered, Change, FileOp, PAGE_SIZE,
};
use crate::storage::store::{is_store_file, latest, stored};
use crate::storage::txn::{is_committed_over, is_unsound, Environment, WriteTxn};

verus! {

/// Programs can be linked this deep.
pub const MAX_LINK_DEPTH: u32 = 64;

/// A task that was asked for with START. It runs after the task that asked for
/// it.
struct PendingStart {
    tranid: String,
    program: String,
    commarea: Option<Vec<u8>>,
}

/// What a task that was asked for is to do.
#[verifier::ext_equal]
pub struct StartView {
    pub tranid: Seq<char>,
    pub program: Seq<char>,
    pub commarea: Option<Seq<u8>>,
}

/// The bytes of a communication area, where there is one.
pub open spec fn area_of(commarea: Option<Vec<u8>>) -> Option<Seq<u8>> {
    match commarea {
        Some(c) => Some(c@),
        None => None,
    }
}

impl View for PendingStart {
    type V = StartView;

    closed spec fn view(&self) -> StartView {
        StartView { tranid: self.tranid@, program: self.program@, commarea: area_of(self.commarea) }
    }
}

/// A copy of a communication area.
fn copy_area(commarea: Option<&[u8]>) -> (r: Option<Vec<u8>>)
    ensures
        area_of(r) == bound_of(commarea),
{
    match commarea {
        Some(c) => Some(vstd::slice::slice_to_vec(c)),
        None => None,
    }
}

/// What a running program works with: facts about its task, links to other
/// programs, starts of other tasks, records and syncpoints.
#[verifier::reject_recursive_types(P)]
pub struct ExecCtx<P> {
    env: Environment,
    programs: ProgramManager<P>,
    fct: FileControlTable,
    /// The unit of work, while a task runs.
    txn: Option<WriteTxn>,
    pending_starts: VecDeque<PendingStart>,
    task_ids: TaskIdGenerator,
    eib: Eib,
    commarea: Option<Vec<u8>>,
}

impl<P> ExecCtx<P> {
    /// The store.
    pub closed spec fn env(&self) -> Environment {
        self.env
    }

    /// The programs that are defined.
    pub closed spec fn programs(&self) -> ProgramManager<P> {
        self.programs
    }

    /// The files that are defined.
    pub closed spec fn fct(&self) -> FileControlTable {
        self.fct
    }

    /// A task runs.
    pub closed spec fn running(&self) -> bool {
        self.txn is Some
    }

    /// The running task's unit of work.
    pub closed spec fn txn(&self) -> WriteTxn {
        self.txn->0
    }

    /// The tasks that are to run after this one.
    pub closed spec fn starts(&self) -> Seq<StartView> {
        self.pending_starts@.map_values(|s: PendingStart| s@)
    }

    /// The number that the next task gets.
    pub closed spec fn upcoming(&self) -> TaskId {
        self.task_ids.upcoming()
    }

    /// The facts about the running task.
    pub closed spec fn facts(&self) -> Eib {
        self.eib
    }

    /// What the running program was handed.
    pub closed spec fn area(&self) -> Option<Seq<u8>> {
        area_of(self.commarea)
    }

    /// What the running task sees of the store.
    pub open spec fn contents(&self) -> Map<Seq<u8>, Seq<u8>> {
        self.txn().contents(self.env())
    }

    /// A task runs, and its unit of work is in order.
    pub open spec fn wf(&self) -> bool {
        &&& self.running()
        &&& self.txn().wf(self.env())
        &&& self.fct().wf()
        &&& 1 <= self.facts().link_level <= MAX_LINK_DEPTH
    }

    /// Only the task's doings lie between the two: definitions are the same,
    /// tasks may have been asked for, and the store is the same unless there
    /// was a commit.
    pub open spec fn continues(&self, earlier: ExecCtx<P>) -> bool {
        &&& self.programs() == earlier.programs()
        &&& self.fct() == earlier.fct()
        &&& self.upcoming() == earlier.upcoming()
        &&& earlier.starts().is_prefix_of(self.starts())
        &&& self.env().readers() == earlier.env().readers()
        &&& earlier.env().meta().txn_id <= self.env().meta().txn_id
        &&& self.env().meta().txn_id == earlier.env().meta().txn_id ==> self.env().contents()
            == earlier.env().contents()
    }

    /// As `continues`, in the same program.
    pub open spec fn follows(&self, earlier: ExecCtx<P>) -> bool {
        &&& self.continues(earlier)
        &&& self.facts() == earlier.facts()
        &&& self.area() == earlier.area()
    }

    /// Nothing but records changed.
    pub open spec fn same_but_records(&self, earlier: ExecCtx<P>) -> bool {
        &&& self.follows(earlier)
        &&& self.env() == earlier.env()
        &&& self.starts() == earlier.starts()
    }

    /// Every node of the unit of work goes into a page, and every record is
    /// within the budget.
    pub open spec fn is_compact(&self) -> bool {
        is_compact(self.txn(), self.env())
    }

    /// The unit of work has just begun: nothing was done in it yet.
    pub open spec fn is_at_a_syncpoint(&self) -> bool {
        self.txn().is_fresh(self.env())
    }

    /// The facts about the task.
    pub fn eib(&self) -> (r: &Eib)
        ensures
            *r == self.facts(),
    {
        &self.eib
    }

    /// What this program was handed, by START, LINK or XCTL.
    pub fn commarea(&self) -> (r: Option<&[u8]>)
        ensures
            bound_of(r) == self.area(),
    {
        match &self.commarea {
            Some(c) => Some(c.as_slice()),
            None => None,
        }
    }

    /// Asks for a task that runs `program` before the others in the queue.
    fn start_first(&mut self, tranid: &str, program: &str, commarea: Option<&[u8]>)
        ensures
            final(self).starts() == seq![
                (StartView { tranid: tranid@, program: program@, commarea: bound_of(commarea) }),
            ] + old(self).starts(),
            final(self).programs() == old(self).programs(),
            final(self).fct() == old(self).fct(),
            final(self).env() == old(self).env(),
            final(self).running() == old(self).running(),
            final(self).upcoming() == old(self).upcoming(),
    {
        let request = PendingStart {
            tranid: tranid.to_owned(),
            program: program.to_owned(),
            commarea: copy_area(commarea),
        };
        self.pending_starts.push_front(request);
        assert(self.starts() =~= seq![request@] + old(self).starts());
    }

    /// START: asks for a task that runs `program` after this one.
    pub fn start(&mut self, tranid: &str, program: &str, commarea: Option<&[u8]>)
        ensures
            final(self).starts() == old(self).starts().push(
                (StartView { tranid: tranid@, program: program@, commarea: bound_of(commarea) }),
            ),
            final(self).continues(*old(self)),
            final(self).running() == old(self).running(),
            final(self).env() == old(self).env(),
            final(self).txn() == old(self).txn(),
            final(self).facts() == old(self).facts(),
            final(self).area() == old(self).area(),
    {
        let request = PendingStart {
            tranid: tranid.to_owned(),
            program: program.to_owned(),
            commarea: copy_area(commarea),
        };
        self.pending_starts.push_back(request);
        assert(self.starts() =~= old(self).starts().push(request@));
        assert(old(self).starts() =~= self.starts().subrange(0, old(self).starts().len() as int));
    }

    /// READ: the record under `key` of `file`.
    pub fn read(&self, file: &str, key: &[u8]) -> (r: Result<Vec<u8>>)
        requires
            self.wf(),
        ensures
            is_read(r, self.contents(), self.fct()@, file@, key@),
    {
        let wtx = self.txn.as_ref().unwrap();
        file_control::exec_read(wtx, &self.env, &self.fct, file, key)
    }

    /// WRITE: stores a new record under `key` of `file`.
    pub fn write(&mut self, file: &str, key: &[u8], data: &[u8]) -> (r: Result<()>)
        requires
            old(self).wf(),
            is_new(old(self).contents(), old(self).fct()@, file@, key@) ==> record_fits(key@, data@),
        ensures
            final(self).wf(),
            final(self).same_but_records(*old(self)),
            is_write(
                r,
                old(self).contents(),
                final(self).contents(),
                old(self).fct()@,
                file@,
                key@,
                data@,
                old(self).txn().room_to_put(old(self).env(), stored_key(old(self).fct()@[file@], key@)),
            ),
            is_modest(old(self).txn(), final(self).txn(), old(self).env()),
            old(self).is_compact() && record_within_budget(key@, data@) ==> final(self).is_compact(),
            r is Err ==> final(self).txn() == old(self).txn(),
    {
        let wtx = self.txn.as_mut().unwrap();
        file_control::exec_write(wtx, &self.env, &self.fct, file, key, data)
    }

    /// REWRITE: replaces the record under `key` of `file`.
    pub fn rewrite(&mut self, file: &str, key: &[u8], data: &[u8]) -> (r: Result<()>)
        requires
            old(self).wf(),
            is_there(old(self).contents(), old(self).fct()@, file@, key@) ==> record_fits(key@, data@),
        ensures
            final(self).wf(),
            final(self).same_but_records(*old(self)),
            is_rewrite(
                r,
                old(self).contents(),
                final(self).contents(),
                old(self).fct()@,
                file@,
                key@,
                data@,
                old(self).txn().room_to_put(old(self).env(), stored_key(old(self).fct()@[file@], key@)),
            ),
            is_modest(old(self).txn(), final(self).txn(), old(self).env()),
            old(self).is_compact() && record_within_budget(key@, data@) ==> final(self).is_compact(),
            r is Err ==> final(self).txn() == old(self).txn(),
    {
        let wtx = self.txn.as_mut().unwrap();
        file_control::exec_rewrite(wtx, &self.env, &self.fct, file, key, data)
    }

    /// DELETE: removes the record under `key` of `file`.
    pub fn delete(&mut self, file: &str, key: &[u8]) -> (r: Result<()>)
        requires
            old(self).wf(),
        ensures
            final(self).wf(),
            final(self).same_but_records(*old(self)),
            is_delete(
                r,
                old(self).contents(),
                final(self).contents(),
                old(self).fct()@,
                file@,
                key@,
                old(self).txn().room_to_delete(old(self).env(), stored_key(old(self).fct()@[file@], key@)),
            ),
            is_modest(old(self).txn(), final(self).txn(), old(self).env()),
            old(self).is_compact() ==> final(self).is_compact(),
    {
        let wtx = self.txn.as_mut().unwrap();
        file_control::exec_delete(wtx, &self.env, &self.fct, file, key)
    }

    /// Whether a browse of `file` comes across records of the file alone.
    pub fn can_browse(&self, file: &str, start_key: Option<&[u8]>, limit: usize) -> (r: bool)
        requires
            self.wf(),
        ensures
            r <==> (self.fct()@.contains_key(file@) ==> can_be_browsed(
                self.contents(),
                self.fct()@[file@],
                bound_of(start_key),
                limit as int,
            )),
    {
        let wtx = self.txn.as_ref().unwrap();
        file_control::exec_can_browse(wtx, &self.env, &self.fct, file, start_key, limit)
    }

    /// A browse: up to `limit` records of `file` in key order, from `start_key`
    /// on.
    pub fn browse(&self, file: &str, start_key: Option<&[u8]>, limit: usize) -> (r: Result<Vec<(Vec<u8>, Vec<u8>)>>)
        requires
            self.wf(),
            self.fct()@.contains_key(file@) ==> can_be_browsed(
                self.contents(),
                self.fct()@[file@],
                bound_of(start_key),
                limit as int,
            ),
        ensures
            is_browse(r, self.contents(), self.fct()@, file@, bound_of(start_key), limit as int),
    {
        let wtx = self.txn.as_ref().unwrap();
        file_control::exec_browse(wtx, &self.env, &self.fct, file, start_key, limit)
    }

    /// SYNCPOINT: commits what the task did so far, in every program, and begins
    /// a new unit of work. A unit of work that cannot be stored stays as it is.
    pub fn syncpoint(&mut self) -> (r: Result<()>)
        requires
            old(self).wf(),
        ensures
            final(self).wf(),
            final(self).follows(*old(self)),
            final(self).starts() == old(self).starts(),
            final(self).contents() == old(self).contents(),
            if old(self).txn().can_be_stored(old(self).env()) {
                &&& r is Ok
                &&& final(self).env().contents() == old(self).contents()
                &&& is_committed_over(old(self).env(), final(self).env())
                &&& final(self).env().meta().txn_id == old(self).env().meta().txn_id + 1
                &&& final(self).env().meta().root == old(self).txn().root()
                &&& final(self).env().meta().next_page == old(self).txn().end_page()
                &&& final(self).is_at_a_syncpoint()
                &&& final(self).txn().free_list() == last_chunk_first(old(self).txn().free_list_after())
                &&& final(self).txn().height(final(self).env()) == old(self).txn().height(old(self).env())
                &&& stored(final(self).env().pager().confirmed()) == stored(old(self).env().pager().confirmed())
                &&& old(self).is_compact() ==> final(self).is_compact()
            } else {
                (r matches Err(e) && is_unstorable(e)) && *final(self) == *old(self)
            },
    {
        if !self.txn.as_ref().unwrap().fits(&self.env) {
            return Err(cannot_be_stored());
        }
        let wtx = self.txn.take().unwrap();
        let r = wtx.commit(&mut self.env);
        self.txn = Some(self.env.begin_write());
        r
    }

    /// SYNCPOINT ROLLBACK: discards what the task did in this unit of work and
    /// begins a new one. The task goes on.
    pub fn syncpoint_rollback(&mut self)
        requires
            old(self).wf(),
        ensures
            final(self).wf(),
            final(self).follows(*old(self)),
            final(self).starts() == old(self).starts(),
            final(self).contents() == old(self).env().contents(),
            final(self).env().contents() == old(self).env().contents(),
            final(self).env().meta() == old(self).env().meta(),
            final(self).env().pager() == old(self).env().pager(),
            final(self).is_at_a_syncpoint(),
    {
        let wtx = self.txn.take().unwrap();
        wtx.rollback(&mut self.env);
        self.txn = Some(self.env.begin_write());
    }

    /// The changes that the real file has not confirmed, in order.
    pub fn pending(&self) -> (r: &Vec<FileOp>)
        ensures
            changes_of(r@) == self.env().pager().outbox(),
    {
        self.env.pending()
    }

    /// Every pending change was carried out on the real file.
    pub fn confirm(&mut self)
        requires
            old(self).wf(),
        ensures
            final(self).wf(),
            final(self).follows(*old(self)),
            final(self).starts() == old(self).starts(),
            final(self).contents() == old(self).contents(),
            final(self).env().contents() == old(self).env().contents(),
            final(self).env().file() == old(self).env().file(),
            final(self).env().pager().confirmed() == old(self).env().file(),
            final(self).env().pager().outbox() == Seq::<Change>::empty(),
    {
        self.env.confirm();
        assert(self.txn().nodes(self.env()) == old(self).txn().nodes(old(self).env()));
    }
}

// ---------------------------------------------------------------------------
// Programs that run in a task
// ---------------------------------------------------------------------------

impl<P> ExecCtx<P> {
    /// The same task in the same state, but for what the running program was
    /// handed.
    pub open spec fn same_but_area(&self, other: ExecCtx<P>) -> bool {
        &&& self.same_but_program(other)
        &&& self.facts() == other.facts()
    }

    /// The same state, but for the facts and for what the running program was
    /// handed.
    pub open spec fn same_but_program(&self, other: ExecCtx<P>) -> bool {
        &&& self.programs() == other.programs()
        &&& self.fct() == other.fct()
        &&& self.env() == other.env()
        &&& self.running() == other.running()
        &&& self.txn() == other.txn()
        &&& self.starts() == other.starts()
        &&& self.upcoming() == other.upcoming()
    }

    /// As `other`, one link deeper.
    pub open spec fn is_one_link_below(&self, other: ExecCtx<P>) -> bool {
        &&& self.same_but_program(other)
        &&& self.facts().task_id == other.facts().task_id
        &&& self.facts().tranid == other.facts().tranid
        &&& self.facts().link_level == other.facts().link_level + 1
    }
}

/// `program` was handed `area` in the state `before`, and its run led to `after`
/// with `outcome`.
pub open spec fn runs<P: CicsProgram>(
    before: ExecCtx<P>,
    program: Seq<char>,
    area: Option<Seq<u8>>,
    after: ExecCtx<P>,
    outcome: Result<ProgramOutcome>,
) -> bool {
    &&& before.programs()@.contains_key(program)
    &&& exists|handed: ExecCtx<P>|
        {
            &&& handed.same_but_area(before)
            &&& handed.area() == area
            &&& after.wf()
            &&& after.follows(handed)
            &&& #[trigger] before.programs()@[program].allows(handed, after, outcome)
        }
}

/// Beginning with `program` and `area`, `n` programs ran one after the other,
/// each of which transferred control. Now `next` is to run, with `next_area`.
pub open spec fn transferred<P: CicsProgram>(
    before: ExecCtx<P>,
    program: Seq<char>,
    area: Option<Seq<u8>>,
    n: nat,
    now: ExecCtx<P>,
    next: Seq<char>,
    next_area: Option<Seq<u8>>,
) -> bool
    decreases n,
{
    if n == 0 {
        now == before && next == program && next_area == area
    } else {
        exists|mid: ExecCtx<P>, p: Seq<char>, a: Option<Seq<u8>>, outcome: Result<ProgramOutcome>|
            {
                &&& transferred(before, program, area, (n - 1) as nat, mid, p, a)
                &&& #[trigger] runs(mid, p, a, now, outcome)
                &&& outcome matches Ok(ProgramOutcome::Xctl { program: q, commarea }) && q@ == next && area_of(commarea)
                    == next_area
            }
    }
}

/// The last program of a chain ran: it returned or failed, or was not there.
pub open spec fn finishes<P: CicsProgram>(
    now: ExecCtx<P>,
    program: Seq<char>,
    area: Option<Seq<u8>>,
    after: ExecCtx<P>,
    r: Result<Option<Vec<u8>>>,
) -> bool {
    ||| !now.programs()@.contains_key(program) && after == now && (r matches Err(e) && is_program_not_found(e, program))
    ||| exists|outcome: Result<ProgramOutcome>| #[trigger]
        runs(now, program, area, after, outcome) && match outcome {
            Ok(ProgramOutcome::Return { commarea }) => r == Ok::<Option<Vec<u8>>, CicsError>(commarea),
            Ok(ProgramOutcome::Xctl { program, commarea }) => false,
            Err(e) => r == Err::<Option<Vec<u8>>, CicsError>(e),
        }
}

/// The error says that control was transferred more often than can be counted.
pub open spec fn is_endless(e: CicsError) -> bool {
    e matches CicsError::InvalidRequest(message) && message@ == "control was transferred without end"@
}

/// Running `program` with `area`, and whatever it transferred control to, led
/// from `before` to `after` and gave `r`, after `n` transfers. A chain that does
/// not end after `limit` transfers is given up.
pub open spec fn chain_ended<P: CicsProgram>(
    before: ExecCtx<P>,
    program: Seq<char>,
    area: Option<Seq<u8>>,
    n: nat,
    limit: nat,
    after: ExecCtx<P>,
    r: Result<Option<Vec<u8>>>,
) -> bool {
    exists|now: ExecCtx<P>, p: Seq<char>, a: Option<Seq<u8>>|
        {
            &&& #[trigger] transferred(before, program, area, n, now, p, a)
            &&& n <= limit
            &&& finishes(now, p, a, after, r) || (n == limit && after == now && (r matches Err(e)
                && is_endless(e)))
        }
}

/// As `chain_ended`, after any number of transfers. A chain that does not end
/// after as many as can be counted is given up.
pub open spec fn chain_ran<P: CicsProgram>(
    before: ExecCtx<P>,
    program: Seq<char>,
    area: Option<Seq<u8>>,
    after: ExecCtx<P>,
    r: Result<Option<Vec<u8>>>,
) -> bool {
    exists|n: nat| #[trigger] chain_ended(before, program, area, n, u64::MAX as nat, after, r)
}

impl<P: CicsProgram> ExecCtx<P> {
    /// LINK: runs `program` one level deeper and comes back with what it
    /// returned. The current program goes on where it was.
    #[verifier::rlimit(40)]
    pub fn link(&mut self, program: &str, commarea: Option<&[u8]>) -> (r: Result<Option<Vec<u8>>>)
        requires
            old(self).wf(),
        ensures
            final(self).wf(),
            final(self).follows(*old(self)),
            if old(self).facts().link_level == MAX_LINK_DEPTH {
                (r matches Err(e) && is_link_stack_overflow(e, program@)) && *final(self) == *old(self)
            } else {
                exists|down: ExecCtx<P>, up: ExecCtx<P>|
                    {
                        &&& down.is_one_link_below(*old(self))
                        &&& #[trigger] chain_ran(down, program@, bound_of(commarea), up, r)
                        &&& final(self).same_but_program(up)
                    }
            },
    {
        let level: u32 = self.eib.link_level;
        if level + 1 > MAX_LINK_DEPTH {
            return Err(CicsError::LinkStackOverflow(program.to_owned()));
        }
        self.eib.link_level = level + 1;
        let mut kept: Option<Vec<u8>> = None;
        std::mem::swap(&mut kept, &mut self.commarea);
        let ghost down = *self;
        let r = self.run_program_loop(program.to_owned(), copy_area(commarea));
        let ghost up = *self;
        self.eib.link_level = level;
        self.commarea = kept;
        proof {
            assert(down.continues(*old(self))) by {
                assert(old(self).starts() =~= down.starts().subrange(0, down.starts().len() as int));
            }
            assert(self.continues(up)) by {
                assert(up.starts() =~= self.starts().subrange(0, self.starts().len() as int));
            }
            lemma_continues(*old(self), down, up);
            lemma_continues(*old(self), up, *self);
            assert(chain_ran(down, program@, bound_of(commarea), up, r));
        }
        r
    }

    /// Gets a program and hands it what it is to work on.
    fn enter(&mut self, program: &str, commarea: Option<Vec<u8>>) -> (r: Result<Arc<P>>)
        requires
            old(self).wf(),
        ensures
            match r {
                Ok(p) => {
                    &&& old(self).programs()@.contains_key(program@)
                    &&& *p == old(self).programs()@[program@]
                    &&& final(self).wf()
                    &&& final(self).same_but_area(*old(self))
                    &&& final(self).area() == area_of(commarea)
                },
                Err(e) => {
                    &&& !old(self).programs()@.contains_key(program@)
                    &&& is_program_not_found(e, program@)
                    &&& *final(self) == *old(self)
                },
            },
    {
        match self.programs.resolve(program) {
            Ok(p) => {
                self.commarea = commarea;
                Ok(p)
            },
            Err(e) => Err(e),
        }
    }

    /// Runs a program, and those that it transfers control to, until one of
    /// them returns or fails.
    #[verifier::rlimit(40)]
    fn run_program_loop(&mut self, program: String, commarea: Option<Vec<u8>>) -> (r: Result<Option<Vec<u8>>>)
        requires
            old(self).wf(),
        ensures
            final(self).wf(),
            final(self).continues(*old(self)),
            final(self).facts() == old(self).facts(),
            chain_ran(*old(self), program@, area_of(commarea), *final(self), r),
    {
        let mut program_name = program;
        let mut area = commarea;
        let mut transfers: u64 = 0;
        proof {
            lemma_continues_itself(*self);
        }
        while transfers < u64::MAX
            invariant
                self.wf(),
                self.continues(*old(self)),
                self.facts() == old(self).facts(),
                transferred(
                    *old(self),
                    program@,
                    area_of(commarea),
                    transfers as nat,
                    *self,
                    program_name@,
                    area_of(area),
                ),
            decreases u64::MAX - transfers,
        {
            let ghost before = *self;
            let ghost name = program_name@;
            let ghost given = area_of(area);
            let p = match self.enter(program_name.as_str(), area) {
                Ok(p) => p,
                Err(e) => {
                    assert(finishes(before, name, given, *self, Err::<Option<Vec<u8>>, CicsError>(e)));
                    assert(chain_ended(
                        *old(self),
                        program@,
                        area_of(commarea),
                        transfers as nat,
                        u64::MAX as nat,
                        *self,
                        Err::<Option<Vec<u8>>, CicsError>(e),
                    ));
                    return Err(e);
                },
            };
            let ghost handed = *self;
            let outcome = p.execute(self);
            proof {
                lemma_continues_itself(before);
                assert(handed.continues(before));
                lemma_continues(*old(self), before, handed);
                lemma_continues(*old(self), handed, *self);
                assert(before.programs()@[name].allows(handed, *self, outcome));
                assert(runs(before, name, given, *self, outcome));
            }
            match step_after(outcome) {
                Step::End(r) => {
                    assert(finishes(before, name, given, *self, r));
                    assert(chain_ended(
                        *old(self),
                        program@,
                        area_of(commarea),
                        transfers as nat,
                        u64::MAX as nat,
                        *self,
                        r,
                    ));
                    return r;
                },
                Step::Next { program: next, commarea: c } => {
                    proof {
                        lemma_transferred(
                            *old(self),
                            program@,
                            area_of(commarea),
                            transfers as nat,
                            before,
                            name,
                            given,
                            *self,
                            outcome,
                        );
                    }
                    program_name = next;
                    area = c;
                },
            }
            transfers += 1;
        }
        let r = Err(CicsError::InvalidRequest("control was transferred without end".to_owned()));
        assert(chain_ended(
            *old(self),
            program@,
            area_of(commarea),
            transfers as nat,
            u64::MAX as nat,
            *self,
            r,
        ));
        r
    }
}

/// One more program transferred control.
proof fn lemma_transferred<P: CicsProgram>(
    before: ExecCtx<P>,
    program: Seq<char>,
    area: Option<Seq<u8>>,
    n: nat,
    mid: ExecCtx<P>,
    p: Seq<char>,
    a: Option<Seq<u8>>,
    now: ExecCtx<P>,
    outcome: Result<ProgramOutcome>,
)
    requires
        transferred(before, program, area, n, mid, p, a),
        runs(mid, p, a, now, outcome),
        outcome matches Ok(o) && o is Xctl,
    ensures
        transferred(before, program, area, n + 1, now, outcome->Ok_0->program@, area_of(outcome->Ok_0->Xctl_commarea)),
{
    assert(transferred(before, program, area, ((n + 1) - 1) as nat, mid, p, a));
}

/// A state continues itself.
proof fn lemma_continues_itself<P>(a: ExecCtx<P>)
    ensures
        a.continues(a),
{
    assert(a.starts() =~= a.starts().subrange(0, a.starts().len() as int));
}

/// What continues a continuation continues its beginning.
proof fn lemma_continues<P>(a: ExecCtx<P>, b: ExecCtx<P>, c: ExecCtx<P>)
    requires
        b.continues(a),
        c.continues(b),
    ensures
        c.continues(a),
{
    let n = a.starts().len() as int;
    assert(a.starts() =~= c.starts().subrange(0, n)) by {
        assert(a.starts() =~= b.starts().subrange(0, n));
        assert(b.starts() =~= c.starts().subrange(0, b.starts().len() as int));
    }
}

/// The error says that linking to this program would nest too deep.
pub open spec fn is_link_stack_overflow(e: CicsError, program: Seq<char>) -> bool {
    e matches CicsError::LinkStackOverflow(name) && name@ == program
}

// ---------------------------------------------------------------------------
// Tasks
// ---------------------------------------------------------------------------

impl<P> ExecCtx<P> {
    /// No task runs, and the store is in order.
    pub open spec fn idle(&self) -> bool {
        &&& !self.running()
        &&& self.env().wf()
        &&& !self.env().writing()
        &&& self.fct().wf()
    }

    /// The same programs and files are defined.
    pub open spec fn same_definitions(&self, other: ExecCtx<P>) -> bool {
        &&& self.programs() == other.programs()
        &&& self.fct() == other.fct()
    }

    /// The next task of `idle` has begun: with the next number, one program
    /// deep, and seeing the latest commit.
    pub open spec fn is_begun(&self, idle: ExecCtx<P>) -> bool {
        &&& self.wf()
        &&& self.is_at_a_syncpoint()
        &&& self.same_definitions(idle)
        &&& self.env().pager() == idle.env().pager()
        &&& self.env().meta() == idle.env().meta()
        &&& self.env().readers() == idle.env().readers()
        &&& self.contents() == idle.env().contents()
        &&& self.starts() == idle.starts().skip(1)
        &&& self.facts().task_id == idle.upcoming()
        &&& self.facts().tranid@ == idle.starts()[0].tranid
        &&& self.facts().link_level == 1
        &&& self.upcoming() == following(idle.upcoming())
    }

    /// Takes the next task from the queue and begins it. Returns the program
    /// that it runs and what that is handed.
    fn begin_task(&mut self) -> (r: (String, Option<Vec<u8>>))
        requires
            old(self).idle(),
            old(self).starts().len() > 0,
        ensures
            final(self).wf(),
            final(self).is_begun(*old(self)),
            r.0@ == old(self).starts()[0].program,
            area_of(r.1) == old(self).starts()[0].commarea,
    {
        let request = self.pending_starts.pop_front().unwrap();
        let task_id: TaskId = self.task_ids.next();
        self.eib = Eib { task_id, tranid: request.tranid, link_level: 1 };
        self.txn = Some(self.env.begin_write());
        assert(self.starts() =~= old(self).starts().skip(1));
        (request.program, request.commarea)
    }

    /// Ends the task: one that ended normally is committed, and one that failed
    /// is backed out.
    fn end_task(&mut self, outcome: Result<Option<Vec<u8>>>) -> (r: Result<Option<Vec<u8>>>)
        requires
            old(self).wf(),
        ensures
            final(self).idle(),
            is_end_of_task(*old(self), outcome, *final(self), r),
    {
        let wtx = self.txn.take().unwrap();
        match outcome {
            Ok(commarea) => {
                if !wtx.fits(&self.env) {
                    wtx.rollback(&mut self.env);
                    return Err(cannot_be_stored());
                }
                match wtx.commit(&mut self.env) {
                    Ok(_) => Ok(commarea),
                    Err(e) => Err(e),
                }
            },
            Err(e) => {
                wtx.rollback(&mut self.env);
                Err(e)
            },
        }
    }
}

/// The task in the state `ended` ends with `outcome`, which leads to `after` and
/// makes `r` the task's result. What it did in its last unit of work is
/// committed if it ended normally, and backed out if it failed or cannot be
/// stored.
pub open spec fn is_end_of_task<P>(
    ended: ExecCtx<P>,
    outcome: Result<Option<Vec<u8>>>,
    after: ExecCtx<P>,
    r: Result<Option<Vec<u8>>>,
) -> bool {
    &&& after.same_definitions(ended)
    &&& after.starts() == ended.starts()
    &&& after.upcoming() == ended.upcoming()
    &&& after.env().readers() == ended.env().readers()
    &&& if outcome is Ok && ended.txn().can_be_stored(ended.env()) {
        &&& r == outcome
        &&& after.env().contents() == ended.contents()
        &&& is_committed_over(ended.env(), after.env())
        &&& after.env().meta().txn_id == ended.env().meta().txn_id + 1
        &&& after.env().meta().root == ended.txn().root()
        &&& after.env().meta().next_page == ended.txn().end_page()
        &&& chained::<FreeListPage>(after.env().file(), after.env().meta().free_list_head) == last_chunk_first(
            ended.txn().free_list_after(),
        )
        &&& stored(after.env().pager().confirmed()) == stored(ended.env().pager().confirmed())
    } else {
        &&& outcome is Err ==> r == outcome
        &&& outcome is Ok ==> (r matches Err(e) && is_unstorable(e))
        &&& after.env().pager() == ended.env().pager()
        &&& after.env().meta() == ended.env().meta()
        &&& after.env().contents() == ended.env().contents()
    }
}

/// A region: a store, the programs and files that are defined, and the tasks
/// that are to run.
#[verifier::reject_recursive_types(P)]
pub struct Region<P> {
    ctx: ExecCtx<P>,
}

impl<P> Region<P> {
    /// The state of the region.
    pub closed spec fn state(&self) -> ExecCtx<P> {
        self.ctx
    }

    /// What the latest commit left in the store.
    pub open spec fn contents(&self) -> Map<Seq<u8>, Seq<u8>> {
        self.state().env().contents()
    }

    /// The tasks that are to run.
    pub open spec fn queue(&self) -> Seq<StartView> {
        self.state().starts()
    }

    /// No task runs, and the store is in order.
    pub open spec fn wf(&self) -> bool {
        self.state().idle()
    }

    /// Opens a region on the bytes of its store's file, or on a new store where
    /// there is no file. No program and no file is defined yet.
    pub fn open(image: Option<Vec<u8>>) -> (r: Result<Region<P>>)
        ensures
            match image {
                None => {
                    &&& r matches Ok(region)
                    &&& region.wf()
                    &&& region.contents() == Map::<Seq<u8>, Seq<u8>>::empty()
                    &&& region.state().env().meta() == first_meta()
                    &&& region.state().env().file() == first_file()
                    &&& region.state().env().pager().outbox() == first_changes()
                    &&& region.is_fresh()
                },
                Some(bytes) => match recovered(bytes@) {
                    Some((slot, meta)) => {
                        &&& r matches Ok(region)
                        &&& region.wf() <==> is_store_file(bytes@)
                        &&& region.contents() == stored(bytes@)
                        &&& region.state().env().meta() == meta
                        &&& region.state().env().file() == bytes@
                        &&& region.state().env().pager().confirmed() == bytes@
                        &&& region.state().env().pager().outbox() == Seq::<Change>::empty()
                        &&& region.is_fresh()
                    },
                    None => r matches Err(e) && is_corrupt(e),
                },
            },
    {
        match Environment::open(image) {
            Ok(env) => Ok(Region::on(env)),
            Err(e) => Err(e),
        }
    }

    /// As `open`, where it is not known whether the bytes are those of a store's
    /// file: everything that the latest commit refers to is looked at, and a file
    /// that is not in order is refused.
    pub fn open_checked(image: Option<Vec<u8>>) -> (r: Result<Region<P>>)
        ensures
            match image {
                None => {
                    &&& r matches Ok(region)
                    &&& region.wf()
                    &&& region.contents() == Map::<Seq<u8>, Seq<u8>>::empty()
                    &&& region.state().env().meta() == first_meta()
                    &&& region.state().env().file() == first_file()
                    &&& region.state().env().pager().outbox() == first_changes()
                    &&& region.is_fresh()
                },
                Some(bytes) => if recovered(bytes@) is None {
                    r matches Err(e) && is_corrupt(e)
                } else if is_store_file(bytes@) {
                    &&& r matches Ok(region)
                    &&& region.wf()
                    &&& region.contents() == stored(bytes@)
                    &&& region.state().env().meta() == latest(bytes@)
                    &&& region.state().env().file() == bytes@
                    &&& region.state().env().pager().confirmed() == bytes@
                    &&& region.state().env().pager().outbox() == Seq::<Change>::empty()
                    &&& region.is_fresh()
                } else {
                    r matches Err(e) && is_unsound(e)
                },
            },
    {
        match Environment::open_checked(image) {
            Ok(env) => Ok(Region::on(env)),
            Err(e) => Err(e),
        }
    }

    /// A region on a store that nothing has been done with.
    fn on(env: Environment) -> (r: Region<P>)
        ensures
            r.state().env() == env,
            env.readers() == Seq::<u64>::empty() ==> r.is_fresh(),
            r.wf() <==> env.wf() && !env.writing(),
    {
        let ctx = ExecCtx {
            env,
            programs: ProgramManager::new(),
            fct: FileControlTable::new(),
            txn: None,
            pending_starts: VecDeque::new(),
            task_ids: TaskIdGenerator::new(),
            eib: Eib { task_id: 0, tranid: String::new(), link_level: 1 },
            commarea: None,
        };
        assert(ctx.starts() =~= Seq::<StartView>::empty());
        Region { ctx }
    }

    /// Nothing is defined, nothing is to run, and no task has run.
    pub open spec fn is_fresh(&self) -> bool {
        &&& self.state().programs()@ == Map::<Seq<char>, P>::empty()
        &&& self.state().fct()@ == Map::<Seq<char>, FileId>::empty()
        &&& self.state().fct().next_id() == 0
        &&& self.queue() == Seq::<StartView>::empty()
        &&& self.state().upcoming() == 1
        &&& !self.state().running()
        &&& self.state().env().readers() == Seq::<u64>::empty()
    }

    /// Nothing but the definitions of programs and files differs.
    pub open spec fn same_but_definitions(&self, other: Region<P>) -> bool {
        &&& self.state().env() == other.state().env()
        &&& self.queue() == other.queue()
        &&& self.state().upcoming() == other.state().upcoming()
        &&& self.state().running() == other.state().running()
    }

    /// Defines a program, in place of one that had the name before.
    pub fn define_program(&mut self, name: &str, program: P)
        ensures
            final(self).state().programs()@ == old(self).state().programs()@.insert(name@, program),
            final(self).state().fct() == old(self).state().fct(),
            final(self).same_but_definitions(*old(self)),
            old(self).wf() ==> final(self).wf(),
    {
        self.ctx.programs.define(name, program);
    }

    /// Whether another file can be defined.
    pub fn can_define_file(&self) -> (r: bool)
        ensures
            r == (self.state().fct().next_id() < u32::MAX),
    {
        self.ctx.fct.has_room()
    }

    /// Defines a file and returns its id.
    pub fn define_file(&mut self, name: &str) -> (id: FileId)
        requires
            old(self).state().fct().next_id() < u32::MAX,
        ensures
            id == old(self).state().fct().next_id(),
            final(self).state().fct().next_id() == id + 1,
            final(self).state().fct()@ == old(self).state().fct()@.insert(name@, id),
            final(self).state().programs() == old(self).state().programs(),
            final(self).same_but_definitions(*old(self)),
            old(self).wf() ==> final(self).wf(),
    {
        self.ctx.fct.define(name)
    }

    /// Asks for a task that runs `program`.
    pub fn submit(&mut self, tranid: &str, program: &str, commarea: Option<&[u8]>)
        ensures
            final(self).queue() == old(self).queue().push(
                (StartView { tranid: tranid@, program: program@, commarea: bound_of(commarea) }),
            ),
            final(self).same_but_queue(*old(self)),
            old(self).wf() ==> final(self).wf(),
    {
        self.ctx.start(tranid, program, commarea);
    }

    /// Forgets the tasks that were asked for and have not run.
    pub fn clear_queue(&mut self)
        ensures
            final(self).queue() == Seq::<StartView>::empty(),
            final(self).same_but_queue(*old(self)),
            old(self).wf() ==> final(self).wf(),
    {
        self.ctx.pending_starts.clear();
        assert(self.queue() =~= Seq::<StartView>::empty());
    }

    /// Nothing but the queue differs.
    pub open spec fn same_but_queue(&self, other: Region<P>) -> bool {
        &&& self.state().same_definitions(other.state())
        &&& self.state().env() == other.state().env()
        &&& self.state().upcoming() == other.state().upcoming()
        &&& self.state().running() == other.state().running()
    }

    /// Only tasks lie between the two: definitions are the same, and the store
    /// is the same unless there was a commit.
    pub open spec fn continues(&self, earlier: Region<P>) -> bool {
        &&& self.state().same_definitions(earlier.state())
        &&& self.state().env().readers() == earlier.state().env().readers()
        &&& earlier.state().env().meta().txn_id <= self.state().env().meta().txn_id
        &&& self.state().env().meta().txn_id == earlier.state().env().meta().txn_id ==> self.contents()
            == earlier.contents()
    }

    /// A number for a task, which no task will get.
    pub fn task_count_hint(&mut self) -> (id: TaskId)
        ensures
            id == old(self).state().upcoming(),
            final(self).state().upcoming() == following(id),
            final(self).queue() == old(self).queue(),
            final(self).state().same_definitions(old(self).state()),
            final(self).state().env() == old(self).state().env(),
            final(self).state().running() == old(self).state().running(),
            old(self).wf() ==> final(self).wf(),
    {
        self.ctx.task_ids.next()
    }

    /// The changes that the real file has not confirmed, in order.
    pub fn pending(&self) -> (r: &Vec<FileOp>)
        ensures
            changes_of(r@) == self.state().env().pager().outbox(),
    {
        self.ctx.env.pending()
    }

    /// Every pending change was carried out on the real file.
    pub fn confirm(&mut self)
        requires
            old(self).wf(),
        ensures
            final(self).wf(),
            final(self).contents() == old(self).contents(),
            final(self).queue() == old(self).queue(),
            final(self).continues(*old(self)),
            final(self).state().upcoming() == old(self).state().upcoming(),
            final(self).state().env().file() == old(self).state().env().file(),
            final(self).state().env().pager().confirmed() == old(self).state().env().file(),
            final(self).state().env().pager().outbox() == Seq::<Change>::empty(),
    {
        self.ctx.env.confirm();
    }

    /// The pending changes could not all be carried out: goes back to the last
    /// commit that the real file confirmed.
    pub fn revert(&mut self)
        requires
            old(self).wf(),
        ensures
            final(self).wf(),
            final(self).contents() == stored(old(self).state().env().pager().confirmed()),
            final(self).queue() == old(self).queue(),
            final(self).state().same_definitions(old(self).state()),
            final(self).state().upcoming() == old(self).state().upcoming(),
            final(self).state().env().file() == old(self).state().env().pager().confirmed(),
            final(self).state().env().pager().outbox() == Seq::<Change>::empty(),
    {
        self.ctx.env.revert();
    }
}

/// The task at the head of the queue ran, which led from `before` to `after`
/// with the result `r`.
pub open spec fn task_ran<P: CicsProgram>(
    before: Region<P>,
    after: Region<P>,
    r: Result<Option<Vec<u8>>>,
) -> bool {
    &&& before.queue().len() > 0
    &&& after.wf()
    &&& after.continues(before)
    &&& before.queue().skip(1).is_prefix_of(after.queue())
    &&& after.state().upcoming() == following(before.state().upcoming())
    &&& exists|begun: ExecCtx<P>, ended: ExecCtx<P>, outcome: Result<Option<Vec<u8>>>|
        {
            &&& begun.is_begun(before.state())
            &&& #[trigger] chain_ran(
                begun,
                before.queue()[0].program,
                before.queue()[0].commarea,
                ended,
                outcome,
            )
            &&& is_end_of_task(ended, outcome, after.state(), r)
        }
}

/// `n` tasks ran one after the other, from the head of the queue each.
pub open spec fn tasks_ran<P: CicsProgram>(before: Region<P>, after: Region<P>, n: nat) -> bool
    decreases n,
{
    if n == 0 {
        after == before
    } else {
        exists|mid: Region<P>, r: Result<Option<Vec<u8>>>| #[trigger]
            task_ran(mid, after, r) && tasks_ran(before, mid, (n - 1) as nat)
    }
}

impl<P: CicsProgram> Region<P> {
    /// Runs the task at the head of the queue, if there is one, and returns its
    /// result. Tasks that it asks for go to the end of the queue.
    pub fn run_next(&mut self) -> (r: Option<Result<Option<Vec<u8>>>>)
        requires
            old(self).wf(),
        ensures
            final(self).wf(),
            final(self).continues(*old(self)),
            match r {
                None => old(self).queue().len() == 0 && *final(self) == *old(self),
                Some(result) => {
                    &&& task_ran(*old(self), *final(self), result)
                    &&& old(self).queue().skip(1).is_prefix_of(final(self).queue())
                    &&& final(self).state().upcoming() == following(old(self).state().upcoming())
                    &&& result is Ok ==> final(self).state().env().meta().txn_id > old(
                        self,
                    ).state().env().meta().txn_id
                },
            },
    {
        if self.ctx.pending_starts.len() == 0 {
            return None;
        }
        assert(self.queue().len() == self.ctx.pending_starts@.len());
        let (program, commarea) = self.ctx.begin_task();
        let ghost begun = self.ctx;
        let outcome = self.ctx.run_program_loop(program, commarea);
        let ghost ended = self.ctx;
        let r = self.ctx.end_task(outcome);
        assert(chain_ran(begun, program@, area_of(commarea), ended, outcome));
        Some(r)
    }

    /// Runs a task to its end, and then the tasks in the queue: those that it
    /// asked for, those that they asked for, and so on. Returns the result of
    /// the first.
    #[verifier::rlimit(40)]
    pub fn start_task(&mut self, tranid: &str, program: &str, commarea: Option<&[u8]>) -> (r: Result<Option<Vec<u8>>>)
        requires
            old(self).wf(),
        ensures
            final(self).wf(),
            final(self).continues(*old(self)),
            r is Ok ==> final(self).state().env().meta().txn_id > old(self).state().env().meta().txn_id,
            exists|asked: Region<P>, first: Region<P>, n: nat|
                {
                    &&& asked.same_but_queue(*old(self))
                    &&& asked.queue() == seq![
                        (StartView { tranid: tranid@, program: program@, commarea: bound_of(commarea) }),
                    ] + old(self).queue()
                    &&& #[trigger] task_ran(asked, first, r)
                    &&& #[trigger] tasks_ran(first, *final(self), n)
                    &&& final(self).queue().len() == 0 || n == u64::MAX
                },
    {
        self.ctx.start_first(tranid, program, commarea);
        let ghost asked = *self;
        let result = self.run_next().unwrap();
        let ghost first = *self;
        let mut others: u64 = 0;
        while others < u64::MAX
            invariant
                self.wf(),
                self.continues(*old(self)),
                tasks_ran(first, *self, others as nat),
                first.state().env().meta().txn_id <= self.state().env().meta().txn_id,
            ensures
                self.wf(),
                self.continues(*old(self)),
                tasks_ran(first, *self, others as nat),
                first.state().env().meta().txn_id <= self.state().env().meta().txn_id,
                self.queue().len() == 0 || others == u64::MAX,
            decreases u64::MAX - others,
        {
            let ghost before = *self;
            match self.run_next() {
                Some(r) => {
                    proof {
                        lemma_tasks_ran(first, before, *self, others as nat, r);
                    }
                },
                None => {
                    break;
                },
            }
            others += 1;
        }
        result
    }
}

/// One more task ran.
proof fn lemma_tasks_ran<P: CicsProgram>(
    first: Region<P>,
    before: Region<P>,
    after: Region<P>,
    n: nat,
    r: Result<Option<Vec<u8>>>,
)
    requires
        tasks_ran(first, before, n),
        task_ran(before, after, r),
    ensures
        tasks_ran(first, after, n + 1),
{
    assert(tasks_ran(first, before, ((n + 1) - 1) as nat));
}

// ---------------------------------------------------------------------------
// Laws
// ---------------------------------------------------------------------------

/// Only a program that is defined can have transferred control.
proof fn lemma_first_is_defined<P: CicsProgram>(
    before: ExecCtx<P>,
    program: Seq<char>,
    area: Option<Seq<u8>>,
    n: nat,
    now: ExecCtx<P>,
    next: Seq<char>,
    next_area: Option<Seq<u8>>,
)
    requires
        transferred(before, program, area, n, now, next, next_area),
        n > 0,
    ensures
        before.programs()@.contains_key(program),
    decreases n,
{
    let (mid, p, a, outcome) = choose|mid: ExecCtx<P>, p: Seq<char>, a: Option<Seq<u8>>, outcome: Result<ProgramOutcome>|
        {
            &&& transferred(before, program, area, (n - 1) as nat, mid, p, a)
            &&& #[trigger] runs(mid, p, a, now, outcome)
            &&& outcome matches Ok(ProgramOutcome::Xctl { program: q, commarea }) && q@ == next && area_of(commarea)
                == next_area
        };
    if n > 1 {
        lemma_first_is_defined(before, program, area, (n - 1) as nat, mid, p, a);
    }
}

/// Asking for a program that is not defined is answered with an error that
/// names it, and changes nothing.
pub proof fn an_undefined_program_is_reported<P: CicsProgram>(
    before: ExecCtx<P>,
    program: Seq<char>,
    area: Option<Seq<u8>>,
    after: ExecCtx<P>,
    r: Result<Option<Vec<u8>>>,
)
    requires
        chain_ran(before, program, area, after, r),
        !before.programs()@.contains_key(program),
    ensures
        r matches Err(e) && is_program_not_found(e, program),
        after == before,
{
    let n = choose|n: nat| #[trigger] chain_ended(before, program, area, n, u64::MAX as nat, after, r);
    let (now, p, a) = choose|now: ExecCtx<P>, p: Seq<char>, a: Option<Seq<u8>>|
        {
            &&& #[trigger] transferred(before, program, area, n, now, p, a)
            &&& finishes(now, p, a, after, r) || (n == u64::MAX && after == now && (r matches Err(e)
                && is_endless(e)))
        };
    if n > 0 {
        lemma_first_is_defined(before, program, area, n, now, p, a);
    }
}

/// A task whose program is not defined fails with an error that names it, and
/// leaves the store as it was.
pub proof fn a_task_without_its_program_changes_nothing<P: CicsProgram>(
    before: Region<P>,
    after: Region<P>,
    r: Result<Option<Vec<u8>>>,
)
    requires
        before.wf(),
        task_ran(before, after, r),
        !before.state().programs()@.contains_key(before.queue()[0].program),
    ensures
        r matches Err(e) && is_program_not_found(e, before.queue()[0].program),
        after.contents() == before.contents(),
        after.queue() == before.queue().skip(1),
{
    let request = before.queue()[0];
    let (begun, ended, outcome) = choose|
        begun: ExecCtx<P>,
        ended: ExecCtx<P>,
        outcome: Result<Option<Vec<u8>>>,
    |
        {
            &&& begun.is_begun(before.state())
            &&& #[trigger] chain_ran(begun, before.queue()[0].program, before.queue()[0].commarea, ended, outcome)
            &&& is_end_of_task(ended, outcome, after.state(), r)
        };
    an_undefined_program_is_reported(begun, request.program, request.commarea, ended, outcome);
}

/// A transfer is the end of one program and the beginning of the next: what was
/// transferred to after `n` steps was transferred to after `n - 1` by the second
/// program.
proof fn lemma_transferred_from_the_front<P: CicsProgram>(
    before: ExecCtx<P>,
    program: Seq<char>,
    area: Option<Seq<u8>>,
    n: nat,
    now: ExecCtx<P>,
    next: Seq<char>,
    next_area: Option<Seq<u8>>,
) -> (r: (ExecCtx<P>, Result<ProgramOutcome>))
    requires
        transferred(before, program, area, n, now, next, next_area),
        n > 0,
    ensures
        runs(before, program, area, r.0, r.1),
        r.1 matches Ok(o) && o is Xctl,
        transferred(
            r.0,
            r.1->Ok_0->program@,
            area_of(r.1->Ok_0->Xctl_commarea),
            (n - 1) as nat,
            now,
            next,
            next_area,
        ),
    decreases n,
{
    let (mid, p, a, outcome) = choose|mid: ExecCtx<P>, p: Seq<char>, a: Option<Seq<u8>>, outcome: Result<ProgramOutcome>|
        {
            &&& transferred(before, program, area, (n - 1) as nat, mid, p, a)
            &&& #[trigger] runs(mid, p, a, now, outcome)
            &&& outcome matches Ok(ProgramOutcome::Xctl { program: q, commarea }) && q@ == next && area_of(commarea)
                == next_area
        };
    if n == 1 {
        (now, outcome)
    } else {
        let first = lemma_transferred_from_the_front(before, program, area, (n - 1) as nat, mid, p, a);
        lemma_transferred(
            first.0,
            first.1->Ok_0->program@,
            area_of(first.1->Ok_0->Xctl_commarea),
            (n - 2) as nat,
            mid,
            p,
            a,
            now,
            outcome,
        );
        first
    }
}

/// A chain is its first program and, if that transferred control, the chain
/// that begins with the program it transferred to. Whoever waits for the chain
/// gets what its last program returns.
pub proof fn a_chain_goes_on_after_its_first_program<P: CicsProgram>(
    before: ExecCtx<P>,
    program: Seq<char>,
    area: Option<Seq<u8>>,
    n: nat,
    limit: nat,
    after: ExecCtx<P>,
    r: Result<Option<Vec<u8>>>,
)
    requires
        chain_ended(before, program, area, n, limit, after, r),
        limit > 0,
    ensures
        n == 0 ==> finishes(before, program, area, after, r),
        n > 0 ==> exists|mid: ExecCtx<P>, outcome: Result<ProgramOutcome>| #[trigger]
            runs(before, program, area, mid, outcome) && (outcome matches Ok(ProgramOutcome::Xctl {
                program: q,
                commarea,
            }) && chain_ended(mid, q@, area_of(commarea), (n - 1) as nat, (limit - 1) as nat, after, r)),
{
    let (now, p, a) = choose|now: ExecCtx<P>, p: Seq<char>, a: Option<Seq<u8>>|
        {
            &&& #[trigger] transferred(before, program, area, n, now, p, a)
            &&& n <= limit
            &&& finishes(now, p, a, after, r) || (n == limit && after == now && (r matches Err(e)
                && is_endless(e)))
        };
    if n > 0 {
        let (mid, outcome) = lemma_transferred_from_the_front(before, program, area, n, now, p, a);
        assert(chain_ended(
            mid,
            outcome->Ok_0->program@,
            area_of(outcome->Ok_0->Xctl_commarea),
            (n - 1) as nat,
            (limit - 1) as nat,
            after,
            r,
        ));
        assert(runs(before, program, area, mid, outcome));
    }
}

/// A program that does not transfer control is a chain by itself: whoever waits
/// for it gets what it returns, or its own error.
pub proof fn a_program_that_returns_ends_its_chain<P: CicsProgram>(
    before: ExecCtx<P>,
    program: Seq<char>,
    area: Option<Seq<u8>>,
    after: ExecCtx<P>,
    r: Result<Option<Vec<u8>>>,
)
    requires
        chain_ran(before, program, area, after, r),
        forall|mid: ExecCtx<P>, outcome: Result<ProgramOutcome>| #[trigger]
            runs(before, program, area, mid, outcome) ==> !(outcome matches Ok(o) && o is Xctl),
    ensures
        finishes(before, program, area, after, r),
{
    let n = choose|n: nat| #[trigger] chain_ended(before, program, area, n, u64::MAX as nat, after, r);
    let (now, p, a) = choose|now: ExecCtx<P>, p: Seq<char>, a: Option<Seq<u8>>|
        {
            &&& #[trigger] transferred(before, program, area, n, now, p, a)
            &&& finishes(now, p, a, after, r) || (n == u64::MAX && after == now && (r matches Err(e)
                && is_endless(e)))
        };
    if n > 0 {
        let (mid, outcome) = lemma_transferred_from_the_front(before, program, area, n, now, p, a);
        assert(runs(before, program, area, mid, outcome));
    }
}

/// Whatever programs a chain runs, only the task's doings lie between its
/// beginning and its end, and the unit of work is in order.
pub proof fn a_chain_continues_its_task<P: CicsProgram>(
    before: ExecCtx<P>,
    program: Seq<char>,
    area: Option<Seq<u8>>,
    after: ExecCtx<P>,
    r: Result<Option<Vec<u8>>>,
)
    requires
        before.wf(),
        chain_ran(before, program, area, after, r),
    ensures
        after.wf(),
        after.continues(before),
        after.facts() == before.facts(),
{
    let n = choose|n: nat| #[trigger] chain_ended(before, program, area, n, u64::MAX as nat, after, r);
    let (now, p, a) = choose|now: ExecCtx<P>, p: Seq<char>, a: Option<Seq<u8>>|
        {
            &&& #[trigger] transferred(before, program, area, n, now, p, a)
            &&& finishes(now, p, a, after, r) || (n == u64::MAX && after == now && (r matches Err(e)
                && is_endless(e)))
        };
    lemma_transfers_continue(before, program, area, n, now, p, a);
    if after != now {
        let outcome = choose|outcome: Result<ProgramOutcome>| #[trigger] runs(now, p, a, after, outcome);
        lemma_a_run_continues(before, now, p, a, after, outcome);
    }
}

/// A program's run continues its task.
proof fn lemma_a_run_continues<P: CicsProgram>(
    before: ExecCtx<P>,
    now: ExecCtx<P>,
    p: Seq<char>,
    a: Option<Seq<u8>>,
    after: ExecCtx<P>,
    outcome: Result<ProgramOutcome>,
)
    requires
        now.continues(before),
        now.facts() == before.facts(),
        runs(now, p, a, after, outcome),
    ensures
        after.wf(),
        after.continues(before),
        after.facts() == before.facts(),
{
    let handed = choose|handed: ExecCtx<P>|
        {
            &&& handed.same_but_area(now)
            &&& handed.area() == a
            &&& after.wf()
            &&& after.follows(handed)
            &&& #[trigger] now.programs()@[p].allows(handed, after, outcome)
        };
    lemma_continues_itself(now);
    assert(handed.continues(now));
    lemma_continues(before, now, handed);
    lemma_continues(before, handed, after);
}

proof fn lemma_transfers_continue<P: CicsProgram>(
    before: ExecCtx<P>,
    program: Seq<char>,
    area: Option<Seq<u8>>,
    n: nat,
    now: ExecCtx<P>,
    next: Seq<char>,
    next_area: Option<Seq<u8>>,
)
    requires
        before.wf(),
        transferred(before, program, area, n, now, next, next_area),
    ensures
        now.wf(),
        now.continues(before),
        now.facts() == before.facts(),
    decreases n,
{
    if n == 0 {
        lemma_continues_itself(before);
    } else {
        let (mid, p, a, outcome) = choose|
            mid: ExecCtx<P>,
            p: Seq<char>,
            a: Option<Seq<u8>>,
            outcome: Result<ProgramOutcome>,
        |
            {
                &&& transferred(before, program, area, (n - 1) as nat, mid, p, a)
                &&& #[trigger] runs(mid, p, a, now, outcome)
                &&& outcome matches Ok(ProgramOutcome::Xctl { program: q, commarea }) && q@ == next && area_of(commarea)
                    == next_area
            };
        lemma_transfers_continue(before, program, area, (n - 1) as nat, mid, p, a);
        lemma_a_run_continues(before, mid, p, a, now, outcome);
    }
}

/// Tasks run in the order of the queue, each of them once: after `n` tasks, what
/// is left of the queue is behind them, and what they asked for comes after
/// that.
pub proof fn tasks_run_in_the_order_of_the_queue<P: CicsProgram>(before: Region<P>, after: Region<P>, n: nat)
    requires
        tasks_ran(before, after, n),
        n <= before.queue().len(),
    ensures
        before.queue().skip(n as int).is_prefix_of(after.queue()),
    decreases n,
{
    if n == 0 {
        assert(before.queue().skip(0) =~= after.queue());
        assert(before.queue().skip(0) =~= after.queue().subrange(0, after.queue().len() as int));
    } else {
        let (mid, r) = choose|mid: Region<P>, r: Result<Option<Vec<u8>>>| #[trigger]
            task_ran(mid, after, r) && tasks_ran(before, mid, (n - 1) as nat);
        tasks_run_in_the_order_of_the_queue(before, mid, (n - 1) as nat);
        lemma_queue_step(before.queue(), mid.queue(), after.queue(), n as int);
    }
}

/// One task less is waiting.
proof fn lemma_queue_step(first: Seq<StartView>, mid: Seq<StartView>, last: Seq<StartView>, n: int)
    requires
        1 <= n <= first.len(),
        mid.len() > 0,
        first.skip(n - 1).is_prefix_of(mid),
        mid.skip(1).is_prefix_of(last),
    ensures
        first.skip(n).is_prefix_of(last),
{
    let rest = first.skip(n);
    assert forall|i: int| 0 <= i < rest.len() implies rest[i] == last[i] by {
        assert(first.skip(n - 1)[i + 1] == mid[i + 1]);
        assert(mid.skip(1)[i] == last[i]);
    }
    assert(rest =~= last.subrange(0, rest.len() as int));
}

/// Where no task is waiting, none runs.
pub proof fn no_task_runs_from_an_empty_queue<P: CicsProgram>(before: Region<P>, after: Region<P>, n: nat)
    requires
        tasks_ran(before, after, n),
        before.queue().len() == 0,
    ensures
        n == 0,
        after == before,
    decreases n,
{
    if n > 0 {
        let (mid, r) = choose|mid: Region<P>, r: Result<Option<Vec<u8>>>| #[trigger]
            task_ran(mid, after, r) && tasks_ran(before, mid, (n - 1) as nat);
        no_task_runs_from_an_empty_queue(before, mid, (n - 1) as nat);
    }
}

/// The task at the head of the queue runs first, and then the others.
pub proof fn the_task_at_the_head_runs_first<P: CicsProgram>(before: Region<P>, after: Region<P>, n: nat)
    requires
        tasks_ran(before, after, n),
        n > 0,
    ensures
        exists|first: Region<P>, r: Result<Option<Vec<u8>>>| #[trigger]
            task_ran(before, first, r) && tasks_ran(first, after, (n - 1) as nat),
    decreases n,
{
    let (mid, r) = choose|mid: Region<P>, r: Result<Option<Vec<u8>>>| #[trigger]
        task_ran(mid, after, r) && tasks_ran(before, mid, (n - 1) as nat);
    if n == 1 {
        assert(tasks_ran(after, after, 0));
        assert(task_ran(before, after, r));
    } else {
        the_task_at_the_head_runs_first(before, mid, (n - 1) as nat);
        let (first, s) = choose|first: Region<P>, s: Result<Option<Vec<u8>>>| #[trigger]
            task_ran(before, first, s) && tasks_ran(first, mid, (n - 2) as nat);
        lemma_tasks_ran(first, mid, after, (n - 2) as nat, r);
        assert(task_ran(before, first, s));
    }
}

/// A task that ends normally is committed, if its nodes go into pages and the
/// store has room for them: its result is what it returned, and what it did is
/// what the store holds.
pub proof fn a_task_that_ends_normally_is_committed<P>(
    ended: ExecCtx<P>,
    outcome: Result<Option<Vec<u8>>>,
    after: ExecCtx<P>,
    r: Result<Option<Vec<u8>>>,
)
    requires
        is_end_of_task(ended, outcome, after, r),
        outcome is Ok,
        ended.is_compact(),
        ended.txn().end_page() * PAGE_SIZE <= usize::MAX,
        ended.txn().base() < u64::MAX,
    ensures
        r == outcome,
        after.env().contents() == ended.contents(),
{
}

/// The first program of the task at the head of the queue, in the state that the
/// task begins in, can lead to `ended` with `outcome`.
pub open spec fn can_run<P: CicsProgram>(
    before: Region<P>,
    begun: ExecCtx<P>,
    ended: ExecCtx<P>,
    outcome: Result<ProgramOutcome>,
) -> bool {
    &&& begun.is_begun(before.state())
    &&& runs(begun, before.queue()[0].program, before.queue()[0].commarea, ended, outcome)
}

/// A task whose program returns is committed and gets what the program returned,
/// as long as what the program did can be stored.
pub proof fn a_task_that_returns_is_committed<P: CicsProgram>(
    before: Region<P>,
    after: Region<P>,
    r: Result<Option<Vec<u8>>>,
)
    requires
        task_ran(before, after, r),
        before.state().programs()@.contains_key(before.queue()[0].program),
        forall|begun: ExecCtx<P>, ended: ExecCtx<P>, outcome: Result<ProgramOutcome>| #[trigger]
            can_run(before, begun, ended, outcome) ==> (outcome matches Ok(o) && o is Return)
                && ended.txn().can_be_stored(ended.env()),
    ensures
        exists|begun: ExecCtx<P>, ended: ExecCtx<P>, outcome: Result<ProgramOutcome>| #[trigger]
            can_run(before, begun, ended, outcome) && r == Ok::<Option<Vec<u8>>, CicsError>(
                outcome->Ok_0->Return_commarea,
            ) && after.contents() == ended.contents(),
{
    let program = before.queue()[0].program;
    let area = before.queue()[0].commarea;
    let (begun, ended, result) = choose|begun: ExecCtx<P>, ended: ExecCtx<P>, result: Result<Option<Vec<u8>>>|
        {
            &&& begun.is_begun(before.state())
            &&& #[trigger] chain_ran(begun, program, area, ended, result)
            &&& is_end_of_task(ended, result, after.state(), r)
        };
    assert forall|mid: ExecCtx<P>, outcome: Result<ProgramOutcome>| #[trigger]
        runs(begun, program, area, mid, outcome) implies !(outcome matches Ok(o) && o is Xctl) by {
        assert(can_run(before, begun, mid, outcome));
    }
    a_program_that_returns_ends_its_chain(begun, program, area, ended, result);
    let outcome = choose|outcome: Result<ProgramOutcome>| #[trigger]
        runs(begun, program, area, ended, outcome) && match outcome {
            Ok(ProgramOutcome::Return { commarea }) => result == Ok::<Option<Vec<u8>>, CicsError>(commarea),
            Ok(ProgramOutcome::Xctl { program, commarea }) => false,
            Err(e) => result == Err::<Option<Vec<u8>>, CicsError>(e),
        };
    assert(can_run(before, begun, ended, outcome));
}

/// A task whose program fails is backed out and gets the program's own error.
pub proof fn a_task_that_fails_is_backed_out<P: CicsProgram>(
    before: Region<P>,
    after: Region<P>,
    r: Result<Option<Vec<u8>>>,
)
    requires
        task_ran(before, after, r),
        before.state().programs()@.contains_key(before.queue()[0].program),
        forall|begun: ExecCtx<P>, ended: ExecCtx<P>, outcome: Result<ProgramOutcome>| #[trigger]
            can_run(before, begun, ended, outcome) ==> outcome is Err,
    ensures
        exists|begun: ExecCtx<P>, ended: ExecCtx<P>, outcome: Result<ProgramOutcome>| #[trigger]
            can_run(before, begun, ended, outcome) && r == Err::<Option<Vec<u8>>, CicsError>(outcome->Err_0)
                && after.contents() == ended.env().contents() && after.queue() == ended.starts(),
{
    let program = before.queue()[0].program;
    let area = before.queue()[0].commarea;
    let (begun, ended, result) = choose|begun: ExecCtx<P>, ended: ExecCtx<P>, result: Result<Option<Vec<u8>>>|
        {
            &&& begun.is_begun(before.state())
            &&& #[trigger] chain_ran(begun, program, area, ended, result)
            &&& is_end_of_task(ended, result, after.state(), r)
        };
    assert forall|mid: ExecCtx<P>, outcome: Result<ProgramOutcome>| #[trigger]
        runs(begun, program, area, mid, outcome) implies !(outcome matches Ok(o) && o is Xctl) by {
        assert(can_run(before, begun, mid, outcome));
    }
    a_program_that_returns_ends_its_chain(begun, program, area, ended, result);
    let outcome = choose|outcome: Result<ProgramOutcome>| #[trigger]
        runs(begun, program, area, ended, outcome) && match outcome {
            Ok(ProgramOutcome::Return { commarea }) => result == Ok::<Option<Vec<u8>>, CicsError>(commarea),
            Ok(ProgramOutcome::Xctl { program, commarea }) => false,
            Err(e) => result == Err::<Option<Vec<u8>>, CicsError>(e),
        };
    assert(can_run(before, begun, ended, outcome));
}

/// What a syncpoint committed stays, though the task fails later: a task that
/// fails leaves the store as its last commit left it.
pub proof fn what_was_committed_survives_a_failure<P>(
    committed: ExecCtx<P>,
    ended: ExecCtx<P>,
    outcome: Result<Option<Vec<u8>>>,
    after: ExecCtx<P>,
    r: Result<Option<Vec<u8>>>,
)
    requires
        ended.continues(committed),
        ended.env().meta().txn_id == committed.env().meta().txn_id,
        outcome is Err,
        is_end_of_task(ended, outcome, after, r),
    ensures
        r == outcome,
        after.env().contents() == committed.env().contents(),
{
}

/// The error says that a unit of work has a node that no page can hold, or that
/// the store is full.
pub open spec fn is_unstorable(e: CicsError) -> bool {
    e matches CicsError::InvalidRequest(message) && message@ == "the unit of work does not fit in the store"@
}

/// The error of a unit of work that cannot be stored.
fn cannot_be_stored() -> (r: CicsError)
    ensures
        is_unstorable(r),
{
    CicsError::InvalidRequest("the unit of work does not fit in the store".to_owned())
}

} // verus!
