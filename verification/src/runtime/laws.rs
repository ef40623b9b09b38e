//! What holds of the runtime as a whole: what a request does to the records of
//! its own file and of all others, what a browse has, how a chain of programs
//! ends, and what becomes of a task.

use vstd::prelude::*;

use crate::error::{CicsError, Result};
use crate::runtime::file_control::{
    can_be_browsed, files_never_collide, id_bytes, is_browse, is_compact, is_delete, is_duplicate_key,
    is_file_not_found, is_front_of_list, is_modest, is_new, is_out_of_pages, is_read, is_record_not_found, is_rewrite, is_there,
    is_write, record_fits, record_within_budget, records, stored_key, FileId,
};
use crate::runtime::program::{is_program_not_found, CicsProgram, ProgramOutcome};
use crate::runtime::region::{
    area_of, chain_ended, chain_ran, finishes, is_end_of_task, is_endless, is_link_stack_overflow, is_unstorable, runs,
    task_ran, tasks_ran, transferred, ExecCtx, Region, StartView, MAX_LINK_DEPTH,
};
use crate::runtime::task::{following, TaskId};
use crate::storage::btree::{rows_of, Node};
use crate::storage::chain::chained;
use crate::storage::codec::PageRecord;
use crate::storage::freelist::FreeListPage;
use crate::storage::keys::key_lt;
use crate::storage::laws::{
    a_quarter_of_the_page_ids_can_be_used, a_range_has_what_lies_between_its_bounds,
    there_is_room_to_delete_while_page_ids_are_left, there_is_room_to_put_while_page_ids_are_left,
    what_goes_into_pages_can_be_committed,
};
use crate::storage::pager::{is_corrupt, is_too_short, PageId};
use crate::storage::store::stored;
use crate::storage::tree::{lists, Row};
use crate::storage::txn::{is_committed_over, is_unsound, watermark_of, Environment, WriteTxn};

verus! {

// ---------------------------------------------------------------------------
// Errors
// ---------------------------------------------------------------------------

/// An error of a request names the file, the record or the program that was
/// asked for.
pub proof fn errors_name_what_was_asked_for(e: CicsError, name: Seq<char>, key: Seq<u8>)
    ensures
        is_file_not_found(e, name) <==> (e matches CicsError::FileNotFound(n) && n@ == name),
        is_record_not_found(e, key, name) <==> (e matches CicsError::RecordNotFound(k, n) && k@ == key && n@ == name),
        is_duplicate_key(e, key, name) <==> (e matches CicsError::DuplicateKey(k, n) && k@ == key && n@ == name),
        is_program_not_found(e, name) <==> (e matches CicsError::ProgramNotFound(n) && n@ == name),
        is_link_stack_overflow(e, name) <==> (e matches CicsError::LinkStackOverflow(n) && n@ == name),
{
}

/// The errors that name nothing have one text each.
pub proof fn other_errors_have_one_text_each(e: CicsError)
    ensures
        is_out_of_pages(e) <==> (e matches CicsError::InvalidRequest(m) && m@ == "the store has no pages left"@),
        is_unstorable(e) <==> (e matches CicsError::InvalidRequest(m) && m@
            == "the unit of work does not fit in the store"@),
        is_endless(e) <==> (e matches CicsError::InvalidRequest(m) && m@ == "control was transferred without end"@),
        is_corrupt(e) <==> (e matches CicsError::Io(m) && m@ == "no valid meta page found; store file is corrupt"@),
        is_unsound(e) <==> (e matches CicsError::Io(m) && m@ == "the store file is corrupt"@),
        is_too_short(e) <==> (e matches CicsError::Io(m) && m@ == "failed to fill whole buffer"@),
{
}

// ---------------------------------------------------------------------------
// Records
// ---------------------------------------------------------------------------

/// A record is stored under the four bytes of its file's id, the highest first,
/// and then its own key.
pub proof fn a_record_is_stored_behind_its_file_id(file: FileId, key: Seq<u8>)
    ensures
        stored_key(file, key).len() == 4 + key.len(),
        stored_key(file, key).skip(4) == key,
        stored_key(file, key)[0] * 0x100_0000 + stored_key(file, key)[1] * 0x1_0000 + stored_key(file, key)[2] * 0x100
            + stored_key(file, key)[3] == file,
{
    assert(stored_key(file, key).skip(4) =~= key);
    assert(id_bytes(file).len() == 4);
    assert forall|i: int| 0 <= i < 4 implies #[trigger] stored_key(file, key)[i] == id_bytes(file)[i] by {}
}

/// A file's records are what is stored behind its id.
pub proof fn a_file_has_what_is_stored_behind_its_id(m: Map<Seq<u8>, Seq<u8>>, file: FileId, key: Seq<u8>)
    ensures
        records(m, file).contains_key(key) <==> m.contains_key(stored_key(file, key)),
        records(m, file).contains_key(key) ==> records(m, file)[key] == m[stored_key(file, key)],
{
}

/// READ gives the record, or says that there is no such file, or else that there
/// is no such record.
pub proof fn a_read_gives_the_record(
    r: Result<Vec<u8>>,
    m: Map<Seq<u8>, Seq<u8>>,
    files: Map<Seq<char>, FileId>,
    file: Seq<char>,
    key: Seq<u8>,
)
    requires
        is_read(r, m, files, file, key),
    ensures
        !files.contains_key(file) ==> (r matches Err(CicsError::FileNotFound(n)) && n@ == file),
        files.contains_key(file) && !m.contains_key(stored_key(files[file], key)) ==> (r matches Err(
            CicsError::RecordNotFound(k, n),
        ) && k@ == key && n@ == file),
        files.contains_key(file) && m.contains_key(stored_key(files[file], key)) ==> (r matches Ok(data) && data@
            == m[stored_key(files[file], key)]),
{
}

/// WRITE stores a record that was not there, of a file that is defined, as long as
/// there is room. It never replaces one.
pub proof fn a_write_stores_a_new_record(
    r: Result<()>,
    before: Map<Seq<u8>, Seq<u8>>,
    after: Map<Seq<u8>, Seq<u8>>,
    files: Map<Seq<char>, FileId>,
    file: Seq<char>,
    key: Seq<u8>,
    data: Seq<u8>,
    room: bool,
)
    requires
        is_write(r, before, after, files, file, key, data, room),
    ensures
        r is Ok <==> files.contains_key(file) && !before.contains_key(stored_key(files[file], key)) && room,
        r is Ok ==> after == before.insert(stored_key(files[file], key), data),
        r is Err ==> after == before,
        !files.contains_key(file) ==> (r matches Err(CicsError::FileNotFound(n)) && n@ == file),
        files.contains_key(file) && before.contains_key(stored_key(files[file], key)) ==> (r matches Err(
            CicsError::DuplicateKey(k, n),
        ) && k@ == key && n@ == file),
{
}

/// REWRITE replaces a record that was there, of a file that is defined, as long
/// as there is room. It never adds one.
pub proof fn a_rewrite_replaces_a_record(
    r: Result<()>,
    before: Map<Seq<u8>, Seq<u8>>,
    after: Map<Seq<u8>, Seq<u8>>,
    files: Map<Seq<char>, FileId>,
    file: Seq<char>,
    key: Seq<u8>,
    data: Seq<u8>,
    room: bool,
)
    requires
        is_rewrite(r, before, after, files, file, key, data, room),
    ensures
        r is Ok <==> files.contains_key(file) && before.contains_key(stored_key(files[file], key)) && room,
        r is Ok ==> after == before.insert(stored_key(files[file], key), data),
        r is Err ==> after == before,
        !files.contains_key(file) ==> (r matches Err(CicsError::FileNotFound(n)) && n@ == file),
        files.contains_key(file) && !before.contains_key(stored_key(files[file], key)) ==> (r matches Err(
            CicsError::RecordNotFound(k, n),
        ) && k@ == key && n@ == file),
{
}

/// DELETE removes a record that was there, of a file that is defined, as long as
/// there is room.
pub proof fn a_delete_removes_a_record(
    r: Result<()>,
    before: Map<Seq<u8>, Seq<u8>>,
    after: Map<Seq<u8>, Seq<u8>>,
    files: Map<Seq<char>, FileId>,
    file: Seq<char>,
    key: Seq<u8>,
    room: bool,
)
    requires
        is_delete(r, before, after, files, file, key, room),
    ensures
        r is Ok <==> files.contains_key(file) && before.contains_key(stored_key(files[file], key)) && room,
        r is Ok ==> after == before.remove(stored_key(files[file], key)),
        r is Err ==> after == before,
        !files.contains_key(file) ==> (r matches Err(CicsError::FileNotFound(n)) && n@ == file),
        files.contains_key(file) && !before.contains_key(stored_key(files[file], key)) ==> (r matches Err(
            CicsError::RecordNotFound(k, n),
        ) && k@ == key && n@ == file),
{
}

/// What was written or rewritten is read back, and every other record of every
/// file is read as before.
pub proof fn what_was_stored_is_read_back(
    w: Result<()>,
    before: Map<Seq<u8>, Seq<u8>>,
    after: Map<Seq<u8>, Seq<u8>>,
    files: Map<Seq<char>, FileId>,
    file: Seq<char>,
    key: Seq<u8>,
    data: Seq<u8>,
    room: bool,
    other: Seq<char>,
    k: Seq<u8>,
    was: Result<Vec<u8>>,
    now: Result<Vec<u8>>,
)
    requires
        is_write(w, before, after, files, file, key, data, room) || is_rewrite(
            w,
            before,
            after,
            files,
            file,
            key,
            data,
            room,
        ),
        w is Ok,
        is_read(was, before, files, other, k),
        is_read(now, after, files, other, k),
    ensures
        files.contains_key(other) && files[other] == files[file] && k == key ==> (now matches Ok(d) && d@ == data),
        !(files.contains_key(other) && files[other] == files[file] && k == key) ==> {
            &&& was is Ok <==> now is Ok
            &&& was is Ok ==> now->Ok_0@ == was->Ok_0@
        },
{
    if files.contains_key(other) && stored_key(files[other], k) == stored_key(files[file], key) {
        files_never_collide(files[other], k, files[file], key);
    }
}

/// What was deleted is not there any more and can be written anew, and every
/// other record of every file is read as before.
pub proof fn what_was_deleted_is_gone(
    d: Result<()>,
    before: Map<Seq<u8>, Seq<u8>>,
    after: Map<Seq<u8>, Seq<u8>>,
    files: Map<Seq<char>, FileId>,
    file: Seq<char>,
    key: Seq<u8>,
    room: bool,
    other: Seq<char>,
    k: Seq<u8>,
    was: Result<Vec<u8>>,
    now: Result<Vec<u8>>,
)
    requires
        is_delete(d, before, after, files, file, key, room),
        d is Ok,
        is_read(was, before, files, other, k),
        is_read(now, after, files, other, k),
    ensures
        files.contains_key(other) && files[other] == files[file] && k == key ==> (now matches Err(
            CicsError::RecordNotFound(x, n),
        ) && x@ == key && n@ == other),
        !(files.contains_key(other) && files[other] == files[file] && k == key) ==> {
            &&& was is Ok <==> now is Ok
            &&& was is Ok ==> now->Ok_0@ == was->Ok_0@
        },
{
    if files.contains_key(other) && stored_key(files[other], k) == stored_key(files[file], key) {
        files_never_collide(files[other], k, files[file], key);
    }
}

/// A new record of a defined file is always written, one that is there is always
/// rewritten, and one that is there is always deleted, unless fewer page ids are
/// left than three for every level of the tree and three more.
pub proof fn requests_fail_for_want_of_pages_only_when_few_are_left<P>(
    ctx: ExecCtx<P>,
    file: Seq<char>,
    key: Seq<u8>,
    data: Seq<u8>,
    after: Map<Seq<u8>, Seq<u8>>,
    r: Result<()>,
)
    requires
        ctx.wf(),
        ctx.fct()@.contains_key(file),
        ctx.txn().next_page() + 3 * ctx.txn().height(ctx.env()) + 3 <= 0xffff_ffff_ffff_ffff || 4
            * ctx.txn().next_page() + 3 <= 0xffff_ffff_ffff_ffff,
    ensures
        ({
            let m = ctx.contents();
            let k = stored_key(ctx.fct()@[file], key);
            let to_put = ctx.txn().room_to_put(ctx.env(), k);
            let to_delete = ctx.txn().room_to_delete(ctx.env(), k);
            &&& !m.contains_key(k) && is_write(r, m, after, ctx.fct()@, file, key, data, to_put) ==> r is Ok && after
                == m.insert(k, data)
            &&& m.contains_key(k) && is_rewrite(r, m, after, ctx.fct()@, file, key, data, to_put) ==> r is Ok && after
                == m.insert(k, data)
            &&& m.contains_key(k) && is_delete(r, m, after, ctx.fct()@, file, key, to_delete) ==> r is Ok && after
                == m.remove(k)
        }),
{
    let k = stored_key(ctx.fct()@[file], key);
    if 4 * ctx.txn().next_page() + 3 <= 0xffff_ffff_ffff_ffff {
        a_quarter_of_the_page_ids_can_be_used(ctx.txn(), ctx.env(), k);
    } else {
        there_is_room_to_put_while_page_ids_are_left(ctx.txn(), ctx.env(), k);
        there_is_room_to_delete_while_page_ids_are_left(ctx.txn(), ctx.env(), k);
    }
}

/// A request takes at most three pages for every level of the tree and three more,
/// and makes the tree at most two levels higher.
pub proof fn a_request_takes_few_pages(before: WriteTxn, after: WriteTxn, env: Environment)
    requires
        is_modest(before, after, env),
    ensures
        before.next_page() <= after.next_page() <= before.next_page() + 3 * before.height(env) + 3,
        after.height(env) <= before.height(env) + 2,
        after.base() == before.base(),
        after.free_list() == before.free_list(),
        after.retired() == before.retired(),
        after.watermark() == before.watermark(),
{
}

/// A browse has, in key order, the first records of the file from the start key
/// on, that one included: as many as were asked for, or all that there are.
pub proof fn a_browse_has_the_first_records_from_its_start(
    r: Result<Vec<(Vec<u8>, Vec<u8>)>>,
    m: Map<Seq<u8>, Seq<u8>>,
    files: Map<Seq<char>, FileId>,
    file: Seq<char>,
    start: Option<Seq<u8>>,
    limit: int,
)
    requires
        is_browse(r, m, files, file, start, limit),
        0 <= limit,
    ensures
        !files.contains_key(file) ==> (r matches Err(CicsError::FileNotFound(n)) && n@ == file),
        files.contains_key(file) ==> r is Ok,
        r matches Ok(rows) ==> {
            let id = files[file];
            &&& rows@.len() <= limit
            &&& forall|i: int, j: int|
                0 <= i < j < rows@.len() ==> key_lt((#[trigger] rows@[i]).0@, (#[trigger] rows@[j]).0@)
            &&& forall|i: int|
                0 <= i < rows@.len() ==> {
                    &&& m.contains_key(stored_key(id, (#[trigger] rows@[i]).0@))
                    &&& rows@[i].1@ == m[stored_key(id, rows@[i].0@)]
                    &&& start matches Some(s) ==> rows@[i].0@ == s || key_lt(s, rows@[i].0@)
                }
            &&& forall|key: Seq<u8>| #[trigger]
                m.contains_key(stored_key(id, key)) && (start matches Some(s) ==> key == s || key_lt(s, key)) ==> {
                    ||| exists|i: int| 0 <= i < rows@.len() && (#[trigger] rows@[i]).0@ == key
                    ||| rows@.len() == limit && forall|i: int|
                        0 <= i < rows@.len() ==> key_lt((#[trigger] rows@[i]).0@, key)
                }
        },
{
    if let Ok(rows) = r {
        let id = files[file];
        let shown = rows_of(rows@);
        assert(is_front_of_list(shown, records(m, id), start, limit));
        let all = choose|all: Seq<Row>| #[trigger]
            lists(all, records(m, id), start, None) && shown == all.take(
                if all.len() < limit {
                    all.len() as int
                } else {
                    limit
                },
            );
        a_range_has_what_lies_between_its_bounds(all, records(m, id), start, None);
        assert(rows@.len() == shown.len());
        assert(shown.len() <= all.len());
        assert forall|i: int| 0 <= i < rows@.len() implies (#[trigger] rows@[i]).0@ == all[i].0 && rows@[i].1@
            == all[i].1 by {
            assert(shown[i] == all[i]);
        }
        assert forall|i: int, j: int| 0 <= i < j < rows@.len() implies key_lt(
            (#[trigger] rows@[i]).0@,
            (#[trigger] rows@[j]).0@,
        ) by {
            assert(key_lt(all[i].0, all[j].0));
        }
        assert forall|key: Seq<u8>| #[trigger]
            m.contains_key(stored_key(id, key)) && (start matches Some(s) ==> key == s || key_lt(s, key)) implies {
            ||| exists|i: int| 0 <= i < rows@.len() && (#[trigger] rows@[i]).0@ == key
            ||| rows@.len() == limit && forall|i: int|
                0 <= i < rows@.len() ==> key_lt((#[trigger] rows@[i]).0@, key)
        } by {
            assert(records(m, id).contains_key(key));
            assert(all.contains((key, records(m, id)[key])));
            let j = choose|j: int| 0 <= j < all.len() && all[j] == (key, records(m, id)[key]);
            if j < rows@.len() {
                assert(rows@[j].0@ == key);
            } else {
                assert forall|i: int| 0 <= i < rows@.len() implies key_lt((#[trigger] rows@[i]).0@, key) by {
                    assert(key_lt(all[i].0, all[j].0));
                }
            }
        }
    }
}

/// Where everything is stored behind the four bytes of some file's id, every file
/// can be browsed from any key and up to any limit.
pub proof fn any_file_of_records_can_be_browsed(
    m: Map<Seq<u8>, Seq<u8>>,
    file: FileId,
    start: Option<Seq<u8>>,
    limit: int,
)
    requires
        forall|k: Seq<u8>| #[trigger] m.contains_key(k) ==> k.len() >= 4,
    ensures
        can_be_browsed(m, file, start, limit),
{
}

/// A browse that ends before it comes to a key of another kind can be made.
pub proof fn a_browse_that_ends_early_can_be_made(
    m: Map<Seq<u8>, Seq<u8>>,
    file: FileId,
    start: Option<Seq<u8>>,
    all: Seq<Row>,
    limit: int,
)
    requires
        lists(all, records(m, file), start, None),
        limit <= all.len(),
    ensures
        can_be_browsed(m, file, start, limit),
{
}

/// A record whose key and data take less than four megabytes can be written, and
/// the size matters only for one that is to be stored.
pub proof fn a_record_of_some_megabytes_can_be_written(
    m: Map<Seq<u8>, Seq<u8>>,
    files: Map<Seq<char>, FileId>,
    file: Seq<char>,
    key: Seq<u8>,
    data: Seq<u8>,
)
    ensures
        4 + key.len() + data.len() <= 4 * 1024 * 1024 ==> record_fits(key, data),
        is_new(m, files, file, key) <==> files.contains_key(file) && !m.contains_key(stored_key(files[file], key)),
        is_there(m, files, file, key) <==> files.contains_key(file) && m.contains_key(stored_key(files[file], key)),
{
}

/// A record is within the budget if its key and data take no more than 4044
/// bytes.
pub proof fn a_record_is_within_the_budget_by_its_size(key: Seq<u8>, data: Seq<u8>)
    ensures
        record_within_budget(key, data) <==> key.len() + data.len() <= 4044,
{
}

/// A unit of work is compact exactly if every node that it made goes into a page
/// and each key with its value takes no more than 4048 bytes.
pub proof fn a_unit_of_work_is_compact_by_its_sizes(txn: WriteTxn, env: Environment)
    requires
        txn.wf(env),
    ensures
        is_compact(txn, env) <==> {
            &&& forall|id: PageId|
                env.meta().next_page <= id < txn.next_page() ==> 4 + Node::body(#[trigger] txn.nodes(env)[id]).len()
                    <= 4096
            &&& forall|k: Seq<u8>| #[trigger]
                txn.contents(env).contains_key(k) ==> k.len() + txn.contents(env)[k].len() <= 4048
        },
{
    what_goes_into_pages_can_be_committed(txn, env);
}

// ---------------------------------------------------------------------------
// Chains of programs
// ---------------------------------------------------------------------------

/// What stands for a communication area is its bytes.
pub proof fn an_area_is_its_bytes(c: Vec<u8>)
    ensures
        area_of(Some(c)) == Some(c@),
        area_of(None) is None,
{
}

/// A program runs in the state that it finds, with exactly what it is handed, and
/// keeps its promise. Returns the state that the program was handed.
pub proof fn a_program_runs_in_the_state_it_finds<P: CicsProgram>(
    before: ExecCtx<P>,
    program: Seq<char>,
    area: Option<Seq<u8>>,
    after: ExecCtx<P>,
    outcome: Result<ProgramOutcome>,
) -> (handed: ExecCtx<P>)
    requires
        runs(before, program, area, after, outcome),
    ensures
        before.programs()@.contains_key(program),
        before.programs()@[program].allows(handed, after, outcome),
        handed.area() == area,
        handed.programs() == before.programs(),
        handed.fct() == before.fct(),
        handed.env() == before.env(),
        handed.running() == before.running(),
        handed.txn() == before.txn(),
        handed.starts() == before.starts(),
        handed.upcoming() == before.upcoming(),
        handed.facts() == before.facts(),
        after.wf(),
        after.facts() == before.facts(),
        after.area() == area,
        after.programs() == before.programs(),
        after.fct() == before.fct(),
        after.upcoming() == before.upcoming(),
        before.starts().is_prefix_of(after.starts()),
        before.env().meta().txn_id <= after.env().meta().txn_id,
        after.env().meta().txn_id == before.env().meta().txn_id ==> after.env().contents() == before.env().contents(),
{
    choose|handed: ExecCtx<P>|
        {
            &&& handed.same_but_area(before)
            &&& handed.area() == area
            &&& after.wf()
            &&& after.follows(handed)
            &&& #[trigger] before.programs()@[program].allows(handed, after, outcome)
        }
}

/// The programs that ran before the one that is to run now, each of which
/// transferred control to the next.
proof fn lemma_steps_of_a_chain<P: CicsProgram>(
    before: ExecCtx<P>,
    program: Seq<char>,
    area: Option<Seq<u8>>,
    n: nat,
    now: ExecCtx<P>,
    next: Seq<char>,
    next_area: Option<Seq<u8>>,
) -> (r: (Seq<(ExecCtx<P>, Seq<char>, Option<Seq<u8>>)>, Seq<Result<ProgramOutcome>>))
    requires
        transferred(before, program, area, n, now, next, next_area),
    ensures
        r.1.len() == n,
        r.0.len() == n + 1,
        r.0[0] == (before, program, area),
        r.0[n as int] == (now, next, next_area),
        forall|i: int|
            0 <= i < n ==> {
                &&& runs(r.0[i].0, r.0[i].1, r.0[i].2, r.0[i + 1].0, #[trigger] r.1[i])
                &&& r.1[i] matches Ok(ProgramOutcome::Xctl { program: q, commarea }) && r.0[i + 1].1 == q@ && r.0[i
                    + 1].2 == area_of(commarea)
            },
    decreases n,
{
    if n == 0 {
        (seq![(before, program, area)], Seq::empty())
    } else {
        let (mid, p, a, outcome) = choose|
            mid: ExecCtx<P>,
            p: Seq<char>,
            a: Option<Seq<u8>>,
            outcome: Result<ProgramOutcome>,
        |
            {
                &&& transferred(before, program, area, (n - 1) as nat, mid, p, a)
                &&& #[trigger] runs(mid, p, a, now, outcome)
                &&& outcome matches Ok(ProgramOutcome::Xctl { program: q, commarea }) && q@ == next && area_of(commarea)
                    == next_area
            };
        let (steps, outcomes) = lemma_steps_of_a_chain(before, program, area, (n - 1) as nat, mid, p, a);
        let all = steps.push((now, next, next_area));
        let ends = outcomes.push(outcome);
        assert forall|i: int| 0 <= i < n implies {
            &&& runs(all[i].0, all[i].1, all[i].2, all[i + 1].0, #[trigger] ends[i])
            &&& ends[i] matches Ok(ProgramOutcome::Xctl { program: q, commarea }) && all[i + 1].1 == q@ && all[i + 1].2
                == area_of(commarea)
        } by {
            assert(all[i] == steps[i]);
            if i < n - 1 {
                assert(ends[i] == outcomes[i]);
                assert(all[i + 1] == steps[i + 1]);
            }
        }
        (all, ends)
    }
}

/// A chain is its programs one after the other: each but the last transferred
/// control to the next, with what it handed over, and the chain's result is what
/// the last one returned, its error, or that the last one is not defined. Only a
/// chain in which control was transferred as often as there are 64-bit numbers
/// is given up. Returns the states that the programs found, with their names and
/// what they were handed, and the outcomes of all but the last.
pub proof fn a_chain_ends_with_what_its_last_program_returns<P: CicsProgram>(
    before: ExecCtx<P>,
    program: Seq<char>,
    area: Option<Seq<u8>>,
    after: ExecCtx<P>,
    r: Result<Option<Vec<u8>>>,
) -> (t: (Seq<(ExecCtx<P>, Seq<char>, Option<Seq<u8>>)>, Seq<Result<ProgramOutcome>>))
    requires
        chain_ran(before, program, area, after, r),
    ensures
        t.0.len() == t.1.len() + 1,
        t.0[0] == (before, program, area),
        forall|i: int|
            0 <= i < t.1.len() ==> {
                &&& runs(t.0[i].0, t.0[i].1, t.0[i].2, t.0[i + 1].0, #[trigger] t.1[i])
                &&& t.1[i] matches Ok(ProgramOutcome::Xctl { program: q, commarea }) && t.0[i + 1].1 == q@
                    && match commarea {
                    Some(c) => t.0[i + 1].2 == Some(c@),
                    None => t.0[i + 1].2 is None,
                }
            },
        ({
            let (now, p, a) = t.0.last();
            ||| !now.programs()@.contains_key(p) && after == now && (r matches Err(CicsError::ProgramNotFound(n)) && n@
                == p)
            ||| exists|commarea: Option<Vec<u8>>| #[trigger]
                runs(now, p, a, after, Ok(ProgramOutcome::Return { commarea })) && r == Ok::<
                    Option<Vec<u8>>,
                    CicsError,
                >(commarea)
            ||| r is Err && runs(now, p, a, after, Err(r->Err_0))
            ||| t.1.len() == 0xffff_ffff_ffff_ffff && after == now && (r matches Err(CicsError::InvalidRequest(m)) && m@
                == "control was transferred without end"@)
        }),
{
    let n = choose|n: nat| #[trigger] chain_ended(before, program, area, n, u64::MAX as nat, after, r);
    let (now, p, a) = choose|now: ExecCtx<P>, p: Seq<char>, a: Option<Seq<u8>>|
        {
            &&& #[trigger] transferred(before, program, area, n, now, p, a)
            &&& n <= u64::MAX
            &&& finishes(now, p, a, after, r) || (n == u64::MAX && after == now && (r matches Err(e)
                && is_endless(e)))
        };
    let t = lemma_steps_of_a_chain(before, program, area, n, now, p, a);
    if finishes(now, p, a, after, r) && now.programs()@.contains_key(p) {
        let outcome = choose|outcome: Result<ProgramOutcome>| #[trigger]
            runs(now, p, a, after, outcome) && match outcome {
                Ok(ProgramOutcome::Return { commarea }) => r == Ok::<Option<Vec<u8>>, CicsError>(commarea),
                Ok(ProgramOutcome::Xctl { program, commarea }) => false,
                Err(e) => r == Err::<Option<Vec<u8>>, CicsError>(e),
            };
        match outcome {
            Ok(ProgramOutcome::Return { commarea }) => {
                assert(runs(now, p, a, after, Ok(ProgramOutcome::Return { commarea })));
            },
            _ => {},
        }
    }
    t
}

/// A chain whose programs end after any number of transfers that can be counted
/// is not given up: if it failed because control was transferred without end,
/// a program said so, or as many transfers took place as there are 64-bit
/// numbers.
pub proof fn a_chain_is_not_given_up_early<P: CicsProgram>(
    before: ExecCtx<P>,
    program: Seq<char>,
    area: Option<Seq<u8>>,
    after: ExecCtx<P>,
    r: Result<Option<Vec<u8>>>,
    most: nat,
)
    requires
        chain_ran(before, program, area, after, r),
        most < 0xffff_ffff_ffff_ffff,
        forall|n: nat, now: ExecCtx<P>, p: Seq<char>, a: Option<Seq<u8>>|
            n > most ==> !#[trigger] transferred(before, program, area, n, now, p, a),
        r matches Err(CicsError::InvalidRequest(m)) && m@ == "control was transferred without end"@,
    ensures
        exists|now: ExecCtx<P>, p: Seq<char>, a: Option<Seq<u8>>| #[trigger] runs(now, p, a, after, Err(r->Err_0)),
{
    let n = choose|n: nat| #[trigger] chain_ended(before, program, area, n, u64::MAX as nat, after, r);
    let (now, p, a) = choose|now: ExecCtx<P>, p: Seq<char>, a: Option<Seq<u8>>|
        {
            &&& #[trigger] transferred(before, program, area, n, now, p, a)
            &&& n <= u64::MAX
            &&& finishes(now, p, a, after, r) || (n == u64::MAX && after == now && (r matches Err(e)
                && is_endless(e)))
        };
    assert(n <= most);
    assert(finishes(now, p, a, after, r));
    let outcome = choose|outcome: Result<ProgramOutcome>| #[trigger]
        runs(now, p, a, after, outcome) && match outcome {
            Ok(ProgramOutcome::Return { commarea }) => r == Ok::<Option<Vec<u8>>, CicsError>(commarea),
            Ok(ProgramOutcome::Xctl { program, commarea }) => false,
            Err(e) => r == Err::<Option<Vec<u8>>, CicsError>(e),
        };
    assert(runs(now, p, a, after, Err(r->Err_0)));
}

/// A linked program finds the task as it is, one level deeper, and whoever linked
/// to it goes on in the state that it left, at the level that it was at. Links
/// nest sixty-four deep.
pub proof fn a_link_is_one_level_deeper<P>(down: ExecCtx<P>, linker: ExecCtx<P>, up: ExecCtx<P>, back: ExecCtx<P>)
    requires
        down.is_one_link_below(linker),
        back.same_but_program(up),
        back.follows(linker),
    ensures
        MAX_LINK_DEPTH == 64,
        down.facts().link_level == linker.facts().link_level + 1,
        down.facts().task_id == linker.facts().task_id,
        down.facts().tranid == linker.facts().tranid,
        down.programs() == linker.programs(),
        down.fct() == linker.fct(),
        down.env() == linker.env(),
        down.txn() == linker.txn(),
        down.starts() == linker.starts(),
        down.upcoming() == linker.upcoming(),
        back.env() == up.env(),
        back.txn() == up.txn(),
        back.starts() == up.starts(),
        back.upcoming() == up.upcoming(),
        back.programs() == linker.programs(),
        back.fct() == linker.fct(),
        back.facts() == linker.facts(),
        back.area() == linker.area(),
        linker.starts().is_prefix_of(back.starts()),
{
}

/// While a task goes on, what is defined and what was asked for stay, and the
/// store changes only by a commit.
pub proof fn only_a_commit_changes_the_store<P>(now: ExecCtx<P>, earlier: ExecCtx<P>)
    requires
        now.continues(earlier),
    ensures
        now.programs() == earlier.programs(),
        now.fct() == earlier.fct(),
        now.upcoming() == earlier.upcoming(),
        earlier.starts().is_prefix_of(now.starts()),
        now.env().readers() == earlier.env().readers(),
        earlier.env().meta().txn_id <= now.env().meta().txn_id,
        now.env().meta().txn_id == earlier.env().meta().txn_id ==> now.env().contents() == earlier.env().contents(),
        now.follows(earlier) ==> now.facts() == earlier.facts() && now.area() == earlier.area(),
        now.same_but_records(earlier) ==> now.env() == earlier.env() && now.starts() == earlier.starts(),
{
}

// ---------------------------------------------------------------------------
// Tasks
// ---------------------------------------------------------------------------

/// A task's number is one more than that of the task before it, until there is
/// no larger one.
pub proof fn tasks_are_numbered_one_after_the_other(id: TaskId)
    ensures
        id < 0xffff_ffff_ffff_ffff ==> following(id) == id + 1,
        id == 0xffff_ffff_ffff_ffff ==> following(id) == 0,
{
}

/// The task at the head of the queue runs: it gets the next number, sees the
/// latest commit, and begins with its program and what that is handed. When its
/// chain of programs has ended normally and what it did can be stored, that is
/// what the store holds, and the task's result is the chain's; otherwise the
/// store is as the task's last commit left it. Returns the states in which the
/// task began and ended, and how its chain ended.
pub proof fn a_task_runs_its_program_and_is_committed_or_backed_out<P: CicsProgram>(
    before: Region<P>,
    after: Region<P>,
    r: Result<Option<Vec<u8>>>,
) -> (t: (ExecCtx<P>, ExecCtx<P>, Result<Option<Vec<u8>>>))
    requires
        task_ran(before, after, r),
    ensures
        before.queue().len() > 0,
        chain_ran(t.0, before.queue()[0].program, before.queue()[0].commarea, t.1, t.2),
        t.0.wf(),
        t.0.contents() == before.contents(),
        t.0.env().contents() == before.contents(),
        t.0.env().meta() == before.state().env().meta(),
        t.0.programs() == before.state().programs(),
        t.0.fct() == before.state().fct(),
        t.0.starts() == before.queue().skip(1),
        t.0.facts().task_id == before.state().upcoming(),
        t.0.facts().tranid@ == before.queue()[0].tranid,
        t.0.facts().link_level == 1,
        t.0.txn().next_page() == before.state().env().meta().next_page,
        t.0.txn().root() == before.state().env().meta().root,
        t.1.starts() == after.queue(),
        after.state().programs() == before.state().programs(),
        after.state().fct() == before.state().fct(),
        after.wf(),
        before.queue().skip(1).is_prefix_of(after.queue()),
        t.2 is Err ==> r == t.2 && after.contents() == t.1.env().contents(),
        t.2 is Ok && t.1.txn().can_be_stored(t.1.env()) ==> r == t.2 && after.contents() == t.1.contents()
            && is_committed_over(t.1.env(), after.state().env()),
        t.2 is Ok && !t.1.txn().can_be_stored(t.1.env()) ==> after.contents() == t.1.env().contents() && (r matches Err(
            CicsError::InvalidRequest(m),
        ) && m@ == "the unit of work does not fit in the store"@),
        after.state().env().meta().txn_id >= before.state().env().meta().txn_id,
        stored(after.state().env().pager().confirmed()) == stored(t.1.env().pager().confirmed()),
        t.0.env().pager() == before.state().env().pager(),
{
    let (begun, ended, outcome) = choose|
        begun: ExecCtx<P>,
        ended: ExecCtx<P>,
        outcome: Result<Option<Vec<u8>>>,
    |
        {
            &&& begun.is_begun(before.state())
            &&& #[trigger] chain_ran(begun, before.queue()[0].program, before.queue()[0].commarea, ended, outcome)
            &&& is_end_of_task(ended, outcome, after.state(), r)
        };
    (begun, ended, outcome)
}

/// A task that ends normally is committed, whatever it did, as long as each of
/// its nodes goes into a page and the store's file is not at its limits.
pub proof fn a_task_whose_nodes_go_into_pages_is_committed<P>(
    ended: ExecCtx<P>,
    outcome: Result<Option<Vec<u8>>>,
    after: ExecCtx<P>,
    r: Result<Option<Vec<u8>>>,
)
    requires
        ended.wf(),
        is_end_of_task(ended, outcome, after, r),
        outcome is Ok,
        forall|id: PageId|
            ended.env().meta().next_page <= id < ended.txn().next_page() ==> 4 + Node::body(
                #[trigger] ended.txn().nodes(ended.env())[id],
            ).len() <= 4096,
        (ended.txn().next_page() + ended.txn().free_list().len() + ended.txn().retired().len()) * 4096 <= usize::MAX,
        ended.txn().base() < 0xffff_ffff_ffff_ffff,
    ensures
        r == outcome,
        after.env().contents() == ended.contents(),
        after.env().meta().txn_id == ended.env().meta().txn_id + 1,
{
    what_goes_into_pages_can_be_committed(ended.txn(), ended.env());
}

/// Tasks run one after the other: none at first, and then each where the one
/// before it ended.
pub proof fn tasks_follow_each_other<P: CicsProgram>(before: Region<P>, after: Region<P>, n: nat)
    requires
        tasks_ran(before, after, n),
    ensures
        n == 0 ==> after == before,
        n > 0 ==> exists|mid: Region<P>, r: Result<Option<Vec<u8>>>| #[trigger]
            task_ran(mid, after, r) && tasks_ran(before, mid, (n - 1) as nat),
{
}

/// In a region that was just opened nothing is defined and nothing waits, and its
/// first task gets the number one.
pub proof fn a_region_begins_with_nothing<P>(region: Region<P>)
    requires
        region.is_fresh(),
    ensures
        region.state().programs()@ == Map::<Seq<char>, P>::empty(),
        region.state().fct()@ == Map::<Seq<char>, FileId>::empty(),
        region.state().fct().next_id() == 0,
        region.queue() == Seq::<StartView>::empty(),
        region.state().upcoming() == 1,
        region.state().env().readers() == Seq::<u64>::empty(),
{
}

/// Defining and asking leave everything else of a region.
pub proof fn a_region_keeps_the_rest<P>(now: Region<P>, earlier: Region<P>)
    ensures
        now.same_but_definitions(earlier) ==> now.state().env() == earlier.state().env() && now.queue()
            == earlier.queue() && now.state().upcoming() == earlier.state().upcoming(),
        now.same_but_queue(earlier) ==> now.state().env() == earlier.state().env() && now.state().programs()
            == earlier.state().programs() && now.state().fct() == earlier.state().fct() && now.state().upcoming()
            == earlier.state().upcoming(),
        now.continues(earlier) ==> now.state().programs() == earlier.state().programs() && now.state().fct()
            == earlier.state().fct() && earlier.state().env().meta().txn_id <= now.state().env().meta().txn_id && (
        now.state().env().meta().txn_id == earlier.state().env().meta().txn_id ==> now.contents()
            == earlier.contents()),
        now.state().same_definitions(earlier.state()) ==> now.state().programs() == earlier.state().programs()
            && now.state().fct() == earlier.state().fct(),
        now.contents() == now.state().env().contents(),
        now.queue() == now.state().starts(),
{
}

/// After a syncpoint or at the start of a task, the unit of work sees the latest
/// commit and has taken no page yet.
pub proof fn a_unit_of_work_begins_with_the_latest_commit<P>(ctx: ExecCtx<P>)
    requires
        ctx.is_at_a_syncpoint(),
    ensures
        ctx.txn().root() == ctx.env().meta().root,
        ctx.txn().next_page() == ctx.env().meta().next_page,
        ctx.txn().base() == ctx.env().meta().txn_id,
        ctx.txn().retired().len() == 0,
        ctx.txn().free_list() == chained::<FreeListPage>(ctx.env().file(), ctx.env().meta().free_list_head),
        ctx.txn().watermark() == watermark_of(ctx.env().readers()),
        ctx.contents() == ctx.env().contents(),
{
}

} // verus!
