//! File Control. The File Control Table maps the file names that programs use
//! to file ids. All files share one tree; a file's id stands in front of its
//! records' keys, so files never collide and a browse over one file never sees
//! another's records.

use vstd::hash_map::StringHashMap;
use vstd::prelude::*;

use crate::error::{CicsError, Result};
use crate::storage::btree::{bound_of, rows_of};
use crate::storage::growth::{a_path_is_no_longer_than_the_store_is_high, within_budget, RECORD_BUDGET};
use crate::storage::keys::{
    falls_below_at, key_lt, key_order_is_strict, key_order_is_total, the_empty_key_comes_first,
};
use crate::storage::tree::{a_list_is_the_only_one, entry_fits, in_bounds, in_key_order, lists, Row};
use crate::storage::txn::{Environment, WriteTxn};

verus! {

/// A file's id.
pub type FileId = u32;

/// Which file name stands for which file.
pub struct FileControlTable {
    files: StringHashMap<FileId>,
    next_id: FileId,
}

impl View for FileControlTable {
    type V = Map<Seq<char>, FileId>;

    closed spec fn view(&self) -> Map<Seq<char>, FileId> {
        self.files@
    }
}

impl FileControlTable {
    /// The id that the next file gets.
    pub closed spec fn next_id(&self) -> FileId {
        self.next_id
    }

    /// No two names stand for one file, and the next id is a new one.
    pub open spec fn wf(&self) -> bool {
        &&& forall|name: Seq<char>| #[trigger] self@.contains_key(name) ==> self@[name] < self.next_id()
        &&& forall|a: Seq<char>, b: Seq<char>| #[trigger]
            self@.contains_key(a) && #[trigger] self@.contains_key(b) && self@[a] == self@[b] ==> a == b
    }

    pub fn new() -> (r: FileControlTable)
        ensures
            r@ == Map::<Seq<char>, FileId>::empty(),
            r.next_id() == 0,
            r.wf(),
    {
        FileControlTable { files: StringHashMap::new(), next_id: 0 }
    }

    /// Whether there is an id left for another file.
    pub fn has_room(&self) -> (r: bool)
        ensures
            r == (self.next_id() < u32::MAX),
    {
        self.next_id < u32::MAX
    }

    /// Defines a file and returns its id. A name that was defined before stands
    /// for the new file from now on.
    pub fn define(&mut self, name: &str) -> (id: FileId)
        requires
            old(self).next_id() < u32::MAX,
        ensures
            id == old(self).next_id(),
            final(self).next_id() == old(self).next_id() + 1,
            final(self)@ == old(self)@.insert(name@, id),
            old(self).wf() ==> final(self).wf(),
    {
        let id: FileId = self.next_id;
        self.next_id = id + 1;
        self.files.insert(name.to_owned(), id);
        id
    }

    /// The file that a name stands for.
    pub fn resolve(&self, name: &str) -> (r: Result<FileId>)
        ensures
            match r {
                Ok(id) => self@.contains_key(name@) && self@[name@] == id,
                Err(e) => !self@.contains_key(name@) && is_file_not_found(e, name@),
            },
    {
        match self.files.get(name) {
            Some(id) => Ok(*id),
            None => Err(CicsError::FileNotFound(name.to_owned())),
        }
    }
}

/// The error says that no such file is defined.
pub open spec fn is_file_not_found(e: CicsError, file: Seq<char>) -> bool {
    e matches CicsError::FileNotFound(name) && name@ == file
}

/// The error says that no such record is in the file.
pub open spec fn is_record_not_found(e: CicsError, key: Seq<u8>, file: Seq<char>) -> bool {
    e matches CicsError::RecordNotFound(k, name) && k@ == key && name@ == file
}

/// The error says that such a record is already in the file.
pub open spec fn is_duplicate_key(e: CicsError, key: Seq<u8>, file: Seq<char>) -> bool {
    e matches CicsError::DuplicateKey(k, name) && k@ == key && name@ == file
}

/// The error says that there are no page ids left for a change.
pub open spec fn is_out_of_pages(e: CicsError) -> bool {
    e matches CicsError::InvalidRequest(message) && message@ == "the store has no pages left"@
}

/// The error of a change that there are no page ids left for.
fn out_of_pages() -> (r: CicsError)
    ensures
        is_out_of_pages(r),
{
    CicsError::InvalidRequest("the store has no pages left".to_owned())
}

// ---------------------------------------------------------------------------
// Keys of records
// ---------------------------------------------------------------------------

/// The bytes of a file's id, the highest first.
pub open spec fn id_bytes(file: FileId) -> Seq<u8> {
    seq![
        (file / 0x100_0000) as u8,
        (file / 0x1_0000 % 0x100) as u8,
        (file / 0x100 % 0x100) as u8,
        (file % 0x100) as u8,
    ]
}

/// The key under which a file's record is stored.
pub open spec fn stored_key(file: FileId, key: Seq<u8>) -> Seq<u8> {
    id_bytes(file) + key
}

/// The key under which a file's record is stored.
pub fn storage_key(file: FileId, record_key: &[u8]) -> (r: Vec<u8>)
    ensures
        r@ == stored_key(file, record_key@),
{
    let mut k: Vec<u8> = Vec::new();
    k.push((file / 0x100_0000) as u8);
    k.push((file / 0x1_0000 % 0x100) as u8);
    k.push((file / 0x100 % 0x100) as u8);
    k.push((file % 0x100) as u8);
    k.extend_from_slice(record_key);
    assert(k@ =~= stored_key(file, record_key@));
    k
}

/// A file's id can be told from its bytes.
proof fn lemma_id_bytes(file: FileId)
    ensures
        id_bytes(file).len() == 4,
        file == id_bytes(file)[0] * 0x100_0000 + id_bytes(file)[1] * 0x1_0000 + id_bytes(file)[2] * 0x100 + id_bytes(
            file,
        )[3],
{
}

/// Records of a file with a smaller id come first, whatever their keys.
pub proof fn files_are_kept_apart(a: FileId, k: Seq<u8>, b: FileId, l: Seq<u8>)
    requires
        a < b,
    ensures
        key_lt(stored_key(a, k), stored_key(b, l)),
{
    lemma_id_bytes(a);
    lemma_id_bytes(b);
    let x = stored_key(a, k);
    let y = stored_key(b, l);
    let p = id_bytes(a);
    let q = id_bytes(b);
    if p[0] != q[0] {
        assert(falls_below_at(x, y, 0));
    } else if p[1] != q[1] {
        assert(falls_below_at(x, y, 1));
    } else if p[2] != q[2] {
        assert(falls_below_at(x, y, 2));
    } else {
        assert(falls_below_at(x, y, 3));
    }
}

/// Two records that are stored under one key are one record of one file.
pub proof fn files_never_collide(a: FileId, k: Seq<u8>, b: FileId, l: Seq<u8>)
    requires
        stored_key(a, k) == stored_key(b, l),
    ensures
        a == b,
        k == l,
{
    lemma_id_bytes(a);
    lemma_id_bytes(b);
    assert forall|i: int| 0 <= i < 4 implies #[trigger] id_bytes(a)[i] == id_bytes(b)[i] by {
        assert(stored_key(a, k)[i] == id_bytes(a)[i]);
        assert(stored_key(b, l)[i] == id_bytes(b)[i]);
    }
    assert(stored_key(a, k).skip(4) =~= k);
    assert(stored_key(b, l).skip(4) =~= l);
}

/// Within a file, records are stored in the order of their keys.
pub proof fn a_file_keeps_its_order(file: FileId, k: Seq<u8>, l: Seq<u8>)
    ensures
        key_lt(stored_key(file, k), stored_key(file, l)) <==> key_lt(k, l),
{
    lemma_id_bytes(file);
    let x = stored_key(file, k);
    let y = stored_key(file, l);
    if key_lt(k, l) {
        let i = choose|i: int| falls_below_at(k, l, i);
        assert forall|j: int| 0 <= j < i + 4 implies x[j] == y[j] by {
            if j >= 4 {
                assert(k[j - 4] == l[j - 4]);
            }
        }
        assert(falls_below_at(x, y, i + 4));
    }
    if key_lt(x, y) {
        let i = choose|i: int| falls_below_at(x, y, i);
        assert forall|j: int| 0 <= j < i - 4 implies k[j] == l[j] by {
            assert(x[j + 4] == y[j + 4]);
        }
        assert(i >= 4) by {
            if i < 4 {
                assert(x[i] == y[i]);
            }
        }
        assert(falls_below_at(k, l, i - 4));
    }
}

/// Every key begins with the id of a file.
pub open spec fn keyed_by_file(m: Map<Seq<u8>, Seq<u8>>) -> bool {
    forall|k: Seq<u8>| #[trigger] m.contains_key(k) ==> k.len() >= 4
}

/// A file's records.
pub open spec fn records(m: Map<Seq<u8>, Seq<u8>>, file: FileId) -> Map<Seq<u8>, Seq<u8>> {
    Map::new(|k: Seq<u8>| m.contains_key(stored_key(file, k)), |k: Seq<u8>| m[stored_key(file, k)])
}

/// Storing a record changes that record of that file, and nothing else of any
/// file.
pub proof fn storing_changes_one_record(
    m: Map<Seq<u8>, Seq<u8>>,
    file: FileId,
    key: Seq<u8>,
    data: Seq<u8>,
    other: FileId,
)
    ensures
        records(m.insert(stored_key(file, key), data), file) == records(m, file).insert(key, data),
        other != file ==> records(m.insert(stored_key(file, key), data), other) == records(m, other),
        keyed_by_file(m) ==> keyed_by_file(m.insert(stored_key(file, key), data)),
{
    let after = m.insert(stored_key(file, key), data);
    assert forall|k: Seq<u8>| stored_key(file, k) == stored_key(file, key) implies k == key by {
        files_never_collide(file, k, file, key);
    }
    assert(records(after, file) =~= records(m, file).insert(key, data));
    if other != file {
        assert forall|k: Seq<u8>| stored_key(other, k) != stored_key(file, key) by {
            if stored_key(other, k) == stored_key(file, key) {
                files_never_collide(other, k, file, key);
            }
        }
        assert(records(after, other) =~= records(m, other));
    }
}

/// Removing a record changes that record of that file, and nothing else of any
/// file.
pub proof fn removing_changes_one_record(m: Map<Seq<u8>, Seq<u8>>, file: FileId, key: Seq<u8>, other: FileId)
    ensures
        records(m.remove(stored_key(file, key)), file) == records(m, file).remove(key),
        other != file ==> records(m.remove(stored_key(file, key)), other) == records(m, other),
        keyed_by_file(m) ==> keyed_by_file(m.remove(stored_key(file, key))),
{
    let after = m.remove(stored_key(file, key));
    assert forall|k: Seq<u8>| stored_key(file, k) == stored_key(file, key) implies k == key by {
        files_never_collide(file, k, file, key);
    }
    assert(records(after, file) =~= records(m, file).remove(key));
    if other != file {
        assert forall|k: Seq<u8>| stored_key(other, k) != stored_key(file, key) by {
            if stored_key(other, k) == stored_key(file, key) {
                files_never_collide(other, k, file, key);
            }
        }
        assert(records(after, other) =~= records(m, other));
    }
}

// ---------------------------------------------------------------------------
// Requests
// ---------------------------------------------------------------------------

/// The file is defined and has no record under `key`.
pub open spec fn is_new(
    m: Map<Seq<u8>, Seq<u8>>,
    files: Map<Seq<char>, FileId>,
    file: Seq<char>,
    key: Seq<u8>,
) -> bool {
    files.contains_key(file) && !records(m, files[file]).contains_key(key)
}

/// The file is defined and has a record under `key`.
pub open spec fn is_there(
    m: Map<Seq<u8>, Seq<u8>>,
    files: Map<Seq<char>, FileId>,
    file: Seq<char>,
    key: Seq<u8>,
) -> bool {
    files.contains_key(file) && records(m, files[file]).contains_key(key)
}

/// A record with this key and data is short enough to stand in a node.
pub open spec fn record_fits(key: Seq<u8>, data: Seq<u8>) -> bool {
    entry_fits(stored_key(0, key), data)
}

/// A record with this key and data is within the budget of what can always be
/// stored.
pub open spec fn record_within_budget(key: Seq<u8>, data: Seq<u8>) -> bool {
    stored_key(0, key).len() + data.len() <= RECORD_BUDGET
}

/// What a request took from the store: a few pages a level, and nothing of what
/// keeps nodes within their pages.
pub open spec fn is_modest(before: WriteTxn, after: WriteTxn, env: Environment) -> bool {
    &&& after.same_books(before)
    &&& before.next_page() <= after.next_page() <= before.next_page() + 3 * before.height(env) + 3
    &&& after.height(env) <= before.height(env) + 2
}

/// A path in a transaction's tree is no longer than the tree is high.
proof fn lemma_paths(wtx: WriteTxn, env: Environment, key: Seq<u8>)
    requires
        wtx.wf(env),
    ensures
        wtx.path_len(env, key) <= wtx.height(env),
{
    a_path_is_no_longer_than_the_store_is_high(wtx.nodes(env), wtx.root(), wtx.next_page() as int, key);
}

/// Every node goes into a page, and every record is within the budget.
pub open spec fn is_compact(wtx: WriteTxn, env: Environment) -> bool {
    &&& wtx.nodes_fit(env)
    &&& within_budget(wtx.contents(env))
}

/// READ: the record under `key`.
pub fn exec_read(wtx: &WriteTxn, env: &Environment, fct: &FileControlTable, file: &str, key: &[u8]) -> (r: Result<
    Vec<u8>,
>)
    requires
        wtx.wf(*env),
    ensures
        is_read(r, wtx.contents(*env), fct@, file@, key@),
{
    let id: FileId = match fct.resolve(file) {
        Ok(id) => id,
        Err(e) => {
            return Err(e);
        },
    };
    match wtx.get(env, storage_key(id, key).as_slice()) {
        Some(data) => Ok(data),
        None => Err(CicsError::RecordNotFound(vstd::slice::slice_to_vec(key), file.to_owned())),
    }
}

/// What reading a record returns: the record, or that there is no such file or
/// no such record.
pub open spec fn is_read(
    r: Result<Vec<u8>>,
    m: Map<Seq<u8>, Seq<u8>>,
    files: Map<Seq<char>, FileId>,
    file: Seq<char>,
    key: Seq<u8>,
) -> bool {
    if !files.contains_key(file) {
        r matches Err(e) && is_file_not_found(e, file)
    } else if !records(m, files[file]).contains_key(key) {
        r matches Err(e) && is_record_not_found(e, key, file)
    } else {
        r matches Ok(data) && data@ == records(m, files[file])[key]
    }
}

/// WRITE: stores a new record. There must be none under this key.
pub fn exec_write(
    wtx: &mut WriteTxn,
    env: &Environment,
    fct: &FileControlTable,
    file: &str,
    key: &[u8],
    data: &[u8],
) -> (r: Result<()>)
    requires
        old(wtx).wf(*env),
        is_new(old(wtx).contents(*env), fct@, file@, key@) ==> record_fits(key@, data@),
    ensures
        final(wtx).wf(*env),
        is_modest(*old(wtx), *final(wtx), *env),
        is_compact(*old(wtx), *env) && record_within_budget(key@, data@) ==> is_compact(*final(wtx), *env),
        is_write(
            r,
            old(wtx).contents(*env),
            final(wtx).contents(*env),
            fct@,
            file@,
            key@,
            data@,
            old(wtx).room_to_put(*env, stored_key(fct@[file@], key@)),
        ),
        r is Err ==> *final(wtx) == *old(wtx),
{
    let id: FileId = match fct.resolve(file) {
        Ok(id) => id,
        Err(e) => {
            return Err(e);
        },
    };
    let skey = storage_key(id, key);
    if wtx.get(env, skey.as_slice()).is_some() {
        return Err(CicsError::DuplicateKey(vstd::slice::slice_to_vec(key), file.to_owned()));
    }
    if !wtx.has_room(env, skey.as_slice()) {
        return Err(out_of_pages());
    }
    proof {
        lemma_paths(*wtx, *env, skey@);
    }
    wtx.put(env, skey.as_slice(), data);
    Ok(())
}

/// What writing a record does: it stores a record that was not there, or says
/// that there is no such file, already such a record or no room for it, and
/// changes nothing.
pub open spec fn is_write(
    r: Result<()>,
    before: Map<Seq<u8>, Seq<u8>>,
    after: Map<Seq<u8>, Seq<u8>>,
    files: Map<Seq<char>, FileId>,
    file: Seq<char>,
    key: Seq<u8>,
    data: Seq<u8>,
    room: bool,
) -> bool {
    if !files.contains_key(file) {
        (r matches Err(e) && is_file_not_found(e, file)) && after == before
    } else if records(before, files[file]).contains_key(key) {
        (r matches Err(e) && is_duplicate_key(e, key, file)) && after == before
    } else if !room {
        (r matches Err(e) && is_out_of_pages(e)) && after == before
    } else {
        r is Ok && after == before.insert(stored_key(files[file], key), data)
    }
}

/// REWRITE: replaces a record. There must be one under this key.
pub fn exec_rewrite(
    wtx: &mut WriteTxn,
    env: &Environment,
    fct: &FileControlTable,
    file: &str,
    key: &[u8],
    data: &[u8],
) -> (r: Result<()>)
    requires
        old(wtx).wf(*env),
        is_there(old(wtx).contents(*env), fct@, file@, key@) ==> record_fits(key@, data@),
    ensures
        final(wtx).wf(*env),
        is_modest(*old(wtx), *final(wtx), *env),
        is_compact(*old(wtx), *env) && record_within_budget(key@, data@) ==> is_compact(*final(wtx), *env),
        is_rewrite(
            r,
            old(wtx).contents(*env),
            final(wtx).contents(*env),
            fct@,
            file@,
            key@,
            data@,
            old(wtx).room_to_put(*env, stored_key(fct@[file@], key@)),
        ),
        r is Err ==> *final(wtx) == *old(wtx),
{
    let id: FileId = match fct.resolve(file) {
        Ok(id) => id,
        Err(e) => {
            return Err(e);
        },
    };
    let skey = storage_key(id, key);
    if wtx.get(env, skey.as_slice()).is_none() {
        return Err(CicsError::RecordNotFound(vstd::slice::slice_to_vec(key), file.to_owned()));
    }
    if !wtx.has_room(env, skey.as_slice()) {
        return Err(out_of_pages());
    }
    proof {
        lemma_paths(*wtx, *env, skey@);
    }
    wtx.put(env, skey.as_slice(), data);
    Ok(())
}

/// What rewriting a record does: it replaces a record that was there, or says
/// that there is no such file, no such record or no room for it, and changes
/// nothing.
pub open spec fn is_rewrite(
    r: Result<()>,
    before: Map<Seq<u8>, Seq<u8>>,
    after: Map<Seq<u8>, Seq<u8>>,
    files: Map<Seq<char>, FileId>,
    file: Seq<char>,
    key: Seq<u8>,
    data: Seq<u8>,
    room: bool,
) -> bool {
    if !files.contains_key(file) {
        (r matches Err(e) && is_file_not_found(e, file)) && after == before
    } else if !records(before, files[file]).contains_key(key) {
        (r matches Err(e) && is_record_not_found(e, key, file)) && after == before
    } else if !room {
        (r matches Err(e) && is_out_of_pages(e)) && after == before
    } else {
        r is Ok && after == before.insert(stored_key(files[file], key), data)
    }
}

/// DELETE: removes a record. There must be one under this key.
pub fn exec_delete(wtx: &mut WriteTxn, env: &Environment, fct: &FileControlTable, file: &str, key: &[u8]) -> (r: Result<
    (),
>)
    requires
        old(wtx).wf(*env),
    ensures
        final(wtx).wf(*env),
        is_modest(*old(wtx), *final(wtx), *env),
        final(wtx).next_page() <= old(wtx).next_page() + old(wtx).height(*env),
        final(wtx).height(*env) <= old(wtx).height(*env),
        is_compact(*old(wtx), *env) ==> is_compact(*final(wtx), *env),
        is_delete(
            r,
            old(wtx).contents(*env),
            final(wtx).contents(*env),
            fct@,
            file@,
            key@,
            old(wtx).room_to_delete(*env, stored_key(fct@[file@], key@)),
        ),
{
    let id: FileId = match fct.resolve(file) {
        Ok(id) => id,
        Err(e) => {
            return Err(e);
        },
    };
    let skey = storage_key(id, key);
    if !wtx.has_room_to_delete(env, skey.as_slice()) {
        if wtx.get(env, skey.as_slice()).is_none() {
            return Err(CicsError::RecordNotFound(vstd::slice::slice_to_vec(key), file.to_owned()));
        }
        return Err(out_of_pages());
    }
    proof {
        lemma_paths(*wtx, *env, skey@);
    }
    if !wtx.delete(env, skey.as_slice()) {
        proof {
            let before = old(wtx).contents(*env);
            assert(before.remove(skey@) =~= before);
        }
        return Err(CicsError::RecordNotFound(vstd::slice::slice_to_vec(key), file.to_owned()));
    }
    Ok(())
}

/// What deleting a record does: it removes a record that was there, or says
/// that there is no such file, no such record or no room for the change, and
/// changes nothing.
pub open spec fn is_delete(
    r: Result<()>,
    before: Map<Seq<u8>, Seq<u8>>,
    after: Map<Seq<u8>, Seq<u8>>,
    files: Map<Seq<char>, FileId>,
    file: Seq<char>,
    key: Seq<u8>,
    room: bool,
) -> bool {
    if !files.contains_key(file) {
        (r matches Err(e) && is_file_not_found(e, file)) && after == before
    } else if !records(before, files[file]).contains_key(key) {
        (r matches Err(e) && is_record_not_found(e, key, file)) && after == before
    } else if !room {
        (r matches Err(e) && is_out_of_pages(e)) && after == before
    } else {
        r is Ok && after == before.remove(stored_key(files[file], key))
    }
}

/// The first key of a file's browse.
pub open spec fn browse_from(file: FileId, start: Option<Seq<u8>>) -> Seq<u8> {
    stored_key(file, start.unwrap_or(Seq::empty()))
}

/// The key that a file's browse ends before.
pub open spec fn browse_to(file: FileId) -> Seq<u8> {
    stored_key((file + 1) as u32, Seq::empty())
}

/// Some key in the range of the file's browse is too short to begin with a
/// file's id.
pub open spec fn has_a_short_key(m: Map<Seq<u8>, Seq<u8>>, file: FileId, start: Option<Seq<u8>>) -> bool {
    exists|k: Seq<u8>| #[trigger]
        m.contains_key(k) && in_bounds(k, Some(browse_from(file, start)), Some(browse_to(file))) && k.len() < 4
}

/// The file has `limit` records or more from `start` on.
pub open spec fn has_records(m: Map<Seq<u8>, Seq<u8>>, file: FileId, start: Option<Seq<u8>>, limit: int) -> bool {
    exists|all: Seq<Row>| #[trigger] lists(all, records(m, file), start, None) && limit <= all.len()
}

/// A browse of the file comes across records of the file alone: there are no
/// others, or it ends before.
pub open spec fn can_be_browsed(m: Map<Seq<u8>, Seq<u8>>, file: FileId, start: Option<Seq<u8>>, limit: int) -> bool {
    has_a_short_key(m, file, start) ==> has_records(m, file, start, limit)
}

/// Where every key begins with the id of a file, every file can be browsed.
pub proof fn a_store_of_records_can_be_browsed(
    m: Map<Seq<u8>, Seq<u8>>,
    file: FileId,
    start: Option<Seq<u8>>,
    limit: int,
)
    requires
        keyed_by_file(m),
    ensures
        can_be_browsed(m, file, start, limit),
{
}

/// Whether a browse of the file comes across records of the file alone.
pub fn exec_can_browse(
    wtx: &WriteTxn,
    env: &Environment,
    fct: &FileControlTable,
    file: &str,
    start_key: Option<&[u8]>,
    limit: usize,
) -> (r: bool)
    requires
        wtx.wf(*env),
        fct.wf(),
    ensures
        r <==> (fct@.contains_key(file@) ==> can_be_browsed(
            wtx.contents(*env),
            fct@[file@],
            bound_of(start_key),
            limit as int,
        )),
{
    let id: FileId = match fct.resolve(file) {
        Ok(id) => id,
        Err(_) => {
            return true;
        },
    };
    let rows = browse_rows(wtx, env, id, start_key);
    let ghost m = wtx.contents(*env);
    let ghost whole = rows_of(rows@);
    let ghost from = bound_of(start_key);
    let ghost n = lemma_browse(whole, m, id, from);
    let mut i: usize = 0;
    while i < rows.len() && i < limit
        invariant
            i <= rows@.len(),
            i <= limit,
            whole == rows_of(rows@),
            n <= whole.len(),
            forall|j: int| 0 <= j < n ==> (#[trigger] whole[j]).0.len() >= 4,
            forall|j: int| n <= j < whole.len() ==> (#[trigger] whole[j]).0.len() < 4,
            i <= n,
            fct@.contains_key(file@),
            fct@[file@] == id,
            m == wtx.contents(*env),
            from == bound_of(start_key),
            lists(whole, m, Some(browse_from(id, from)), Some(browse_to(id))),
            lists(without_ids(whole.take(n)), records(m, id), from, None),
        decreases rows@.len() - i,
    {
        assert(whole[i as int] == (rows@[i as int].0@, rows@[i as int].1@));
        if rows[i].0.len() < 4 {
            proof {
                let row = whole[i as int];
                assert(whole.contains((row.0, row.1)));
                assert(m.contains_key(row.0));
                assert(has_a_short_key(m, id, from));
                if has_records(m, id, from, limit as int) {
                    let all = choose|all: Seq<Row>| #[trigger]
                        lists(all, records(m, id), from, None) && limit <= all.len();
                    a_list_is_the_only_one(all, without_ids(whole.take(n)), records(m, id), from, None);
                }
            }
            return false;
        }
        i += 1;
    }
    proof {
        let all = without_ids(whole.take(n));
        if limit <= n {
            assert(all.len() == n);
            assert(has_records(m, id, from, limit as int));
        } else {
            assert(n == whole.len());
            assert(!has_a_short_key(m, id, from)) by {
                if has_a_short_key(m, id, from) {
                    let k = choose|k: Seq<u8>| #[trigger]
                        m.contains_key(k) && in_bounds(k, Some(browse_from(id, from)), Some(browse_to(id))) && k.len()
                            < 4;
                    assert(whole.contains((k, m[k])));
                    let j = choose|j: int| 0 <= j < whole.len() && whole[j] == (k, m[k]);
                    assert(whole[j].0.len() >= 4);
                }
            }
        }
    }
    true
}

/// What lies in the range of a file's browse.
fn browse_rows(wtx: &WriteTxn, env: &Environment, id: FileId, start_key: Option<&[u8]>) -> (rows: Vec<
    (Vec<u8>, Vec<u8>),
>)
    requires
        wtx.wf(*env),
        id < u32::MAX,
    ensures
        lists(
            rows_of(rows@),
            wtx.contents(*env),
            Some(browse_from(id, bound_of(start_key))),
            Some(browse_to(id)),
        ),
{
    let nothing: Vec<u8> = Vec::new();
    assert(nothing@ =~= Seq::<u8>::empty());
    let lo = match start_key {
        Some(start) => storage_key(id, start),
        None => storage_key(id, nothing.as_slice()),
    };
    let hi = storage_key(id + 1, nothing.as_slice());
    wtx.range(env, Some(lo.as_slice()), Some(hi.as_slice()))
}

/// A browse: up to `limit` records of a file in key order, from `start_key` on.
pub fn exec_browse(
    wtx: &WriteTxn,
    env: &Environment,
    fct: &FileControlTable,
    file: &str,
    start_key: Option<&[u8]>,
    limit: usize,
) -> (r: Result<Vec<(Vec<u8>, Vec<u8>)>>)
    requires
        wtx.wf(*env),
        fct.wf(),
        fct@.contains_key(file@) ==> can_be_browsed(
            wtx.contents(*env),
            fct@[file@],
            bound_of(start_key),
            limit as int,
        ),
    ensures
        is_browse(r, wtx.contents(*env), fct@, file@, bound_of(start_key), limit as int),
{
    let id: FileId = match fct.resolve(file) {
        Ok(id) => id,
        Err(e) => {
            return Err(e);
        },
    };
    let rows = browse_rows(wtx, env, id, start_key);
    let ghost whole = rows_of(rows@);
    let ghost m = wtx.contents(*env);
    let ghost from = bound_of(start_key);
    let ghost n = lemma_browse(whole, m, id, from);
    let ghost all = without_ids(whole.take(n));
    proof {
        if n < whole.len() {
            let row = whole[n];
            assert(whole.contains((row.0, row.1)));
            assert(m.contains_key(row.0));
            assert(has_a_short_key(m, id, from));
            let other = choose|other: Seq<Row>| #[trigger]
                lists(other, records(m, id), from, None) && limit <= other.len();
            a_list_is_the_only_one(other, all, records(m, id), from, None);
        }
    }
    let mut out: Vec<(Vec<u8>, Vec<u8>)> = Vec::new();
    let mut i: usize = 0;
    while i < rows.len() && i < limit
        invariant
            i <= rows@.len(),
            i <= limit,
            whole == rows_of(rows@),
            n <= whole.len(),
            n == whole.len() || limit <= n,
            all == without_ids(whole.take(n)),
            forall|j: int| 0 <= j < n ==> (#[trigger] whole[j]).0.len() >= 4,
            out@.len() == i,
            i <= n,
            forall|j: int| 0 <= j < i ==> (#[trigger] out@[j]).0@ == all[j].0 && out@[j].1@ == all[j].1,
        decreases rows@.len() - i,
    {
        let row = &rows[i];
        assert(whole[i as int] == (row.0@, row.1@));
        // The file id does not belong to the record's key.
        let key = vstd::slice::slice_to_vec(vstd::slice::slice_subrange(row.0.as_slice(), 4, row.0.len()));
        out.push((key, vstd::slice::slice_to_vec(row.1.as_slice())));
        assert(key@ =~= row.0@.skip(4));
        i += 1;
    }
    assert(rows_of(out@) =~= all.take(i as int));
    Ok(out)
}

/// Rows without the file ids in front of their keys.
spec fn without_ids(rows: Seq<Row>) -> Seq<Row> {
    rows.map_values(|row: Row| (row.0.skip(4), row.1))
}

/// What a browse returns: the first records of the file from `start` on, as
/// many as there are up to `limit`, or that there is no such file.
pub open spec fn is_browse(
    r: Result<Vec<(Vec<u8>, Vec<u8>)>>,
    m: Map<Seq<u8>, Seq<u8>>,
    files: Map<Seq<char>, FileId>,
    file: Seq<char>,
    start: Option<Seq<u8>>,
    limit: int,
) -> bool {
    if !files.contains_key(file) {
        r matches Err(e) && is_file_not_found(e, file)
    } else {
        r matches Ok(rows) && is_front_of_list(rows_of(rows@), records(m, files[file]), start, limit)
    }
}

/// `rows` are the first `limit` entries of `m` from `start` on, or all if there
/// are fewer.
pub open spec fn is_front_of_list(
    rows: Seq<Row>,
    m: Map<Seq<u8>, Seq<u8>>,
    start: Option<Seq<u8>>,
    limit: int,
) -> bool {
    exists|all: Seq<Row>| #[trigger]
        lists(all, m, start, None) && rows == all.take(
            if all.len() < limit {
                all.len() as int
            } else {
                limit
            },
        )
}

/// The bytes of a number can be told from it.
#[verifier::rlimit(40)]
proof fn lemma_digits(a: int, b: int, c: int, d: int)
    requires
        0 <= a < 0x100,
        0 <= b < 0x100,
        0 <= c < 0x100,
        0 <= d < 0x100,
    ensures
        0 <= a * 0x100_0000 + b * 0x1_0000 + c * 0x100 + d < 0x1_0000_0000,
        (a * 0x100_0000 + b * 0x1_0000 + c * 0x100 + d) / 0x100_0000 == a,
        (a * 0x100_0000 + b * 0x1_0000 + c * 0x100 + d) / 0x1_0000 % 0x100 == b,
        (a * 0x100_0000 + b * 0x1_0000 + c * 0x100 + d) / 0x100 % 0x100 == c,
        (a * 0x100_0000 + b * 0x1_0000 + c * 0x100 + d) % 0x100 == d,
{
    let n = a * 0x100_0000 + b * 0x1_0000 + c * 0x100 + d;
    assert(n / 0x100_0000 == a);
    assert(n / 0x1_0000 == a * 0x100 + b);
    assert(n / 0x100 == a * 0x1_0000 + b * 0x100 + c);
}

/// Any four bytes are those of some file's id.
proof fn lemma_some_id(k: Seq<u8>) -> (id: FileId)
    requires
        k.len() >= 4,
    ensures
        k == stored_key(id, k.skip(4)),
{
    let a = k[0] as int;
    let b = k[1] as int;
    let c = k[2] as int;
    let d = k[3] as int;
    let n = a * 0x100_0000 + b * 0x1_0000 + c * 0x100 + d;
    lemma_digits(a, b, c, d);
    let id = n as u32;
    assert(id == n);
    let whole = stored_key(id, k.skip(4));
    assert forall|i: int| 0 <= i < k.len() implies k[i] == whole[i] by {
        if i < 4 {
            assert(whole[i] == id_bytes(id)[i]);
        }
    }
    assert(k =~= whole);
    id
}

/// Keys between the bounds of a file's browse are keys of the file.
#[verifier::rlimit(40)]
proof fn lemma_browse_bounds(file: FileId, start: Option<Seq<u8>>, k: Seq<u8>)
    requires
        file < u32::MAX,
        k.len() >= 4,
    ensures
        in_bounds(
            k,
            Some(stored_key(file, start.unwrap_or(Seq::empty()))),
            Some(stored_key((file + 1) as u32, Seq::empty())),
        ) <==> k == stored_key(file, k.skip(4)) && in_bounds(k.skip(4), start, None),
{
    let s = start.unwrap_or(Seq::empty());
    let id = lemma_some_id(k);
    let rest = k.skip(4);
    the_empty_key_comes_first(rest);
    a_file_keeps_its_order(file, rest, s);
    if id < file {
        files_are_kept_apart(id, rest, file, s);
        lemma_id_differs(id, rest, file, rest);
    } else if id == file {
        files_are_kept_apart(file, rest, (file + 1) as u32, Seq::empty());
    } else {
        lemma_id_differs(id, rest, file, rest);
        if id == file + 1 {
            a_file_keeps_its_order(id, rest, Seq::empty());
        } else {
            files_are_kept_apart((file + 1) as u32, Seq::empty(), id, rest);
            key_order_is_strict(k, stored_key((file + 1) as u32, Seq::empty()));
        }
    }
}

proof fn lemma_id_differs(a: FileId, k: Seq<u8>, b: FileId, l: Seq<u8>)
    requires
        a != b,
    ensures
        stored_key(a, k) != stored_key(b, l),
{
    if stored_key(a, k) == stored_key(b, l) {
        files_never_collide(a, k, b, l);
    }
}

/// A key that is too short to begin with a file's id comes after all records of
/// the file, if it does not come before the start of its browse.
proof fn lemma_short_keys_come_last(file: FileId, start: Option<Seq<u8>>, k: Seq<u8>, key: Seq<u8>)
    requires
        k.len() < 4,
        in_bounds(k, Some(browse_from(file, start)), None),
    ensures
        key_lt(stored_key(file, key), k),
{
    let from = browse_from(file, start);
    key_order_is_total(from, k);
    lemma_id_bytes(file);
    assert(from != k);
    let i = choose|i: int| falls_below_at(from, k, i);
    let whole = stored_key(file, key);
    assert forall|j: int| 0 <= j < i implies whole[j] == k[j] by {
        assert(from[j] == id_bytes(file)[j]);
        assert(whole[j] == id_bytes(file)[j]);
    }
    assert(from[i] == id_bytes(file)[i] && whole[i] == id_bytes(file)[i]);
    assert(falls_below_at(whole, k, i));
}

/// What lies between the bounds of a file's browse is the list of its records,
/// and after that keys that are too short.
proof fn lemma_browse(rows: Seq<Row>, m: Map<Seq<u8>, Seq<u8>>, file: FileId, start: Option<Seq<u8>>) -> (n: int)
    requires
        file < u32::MAX,
        lists(rows, m, Some(browse_from(file, start)), Some(browse_to(file))),
    ensures
        0 <= n <= rows.len(),
        forall|i: int| 0 <= i < n ==> (#[trigger] rows[i]).0.len() >= 4,
        forall|i: int| n <= i < rows.len() ==> (#[trigger] rows[i]).0.len() < 4,
        lists(without_ids(rows.take(n)), records(m, file), start, None),
{
    let lo = Some(browse_from(file, start));
    let hi = Some(browse_to(file));
    assert forall|i: int| 0 <= i < rows.len() && (#[trigger] rows[i]).0.len() >= 4 implies rows[i].0 == stored_key(
        file,
        rows[i].0.skip(4),
    ) && in_bounds(rows[i].0.skip(4), start, None) by {
        let row = rows[i];
        assert(rows.contains((row.0, row.1)));
        lemma_browse_bounds(file, start, row.0);
    }
    assert forall|i: int| 0 <= i < rows.len() implies in_bounds((#[trigger] rows[i]).0, lo, None) by {
        let row = rows[i];
        assert(rows.contains((row.0, row.1)));
        assert(in_bounds(row.0, lo, hi));
    }
    let n = lemma_front(rows, file, start);
    let front = rows.take(n);
    let all = without_ids(front);
    assert forall|i: int, j: int| 0 <= i < j < all.len() implies key_lt((#[trigger] all[i]).0, (#[trigger] all[j]).0) by {
        assert(key_lt(rows[i].0, rows[j].0));
        assert(rows[i].0.len() >= 4 && rows[j].0.len() >= 4);
        a_file_keeps_its_order(file, all[i].0, all[j].0);
    }
    let recs = records(m, file);
    assert forall|key: Seq<u8>, value: Seq<u8>| #[trigger] all.contains((key, value)) <==> recs.contains_key(key)
        && recs[key] == value && in_bounds(key, start, None) by {
        let whole = stored_key(file, key);
        assert(whole.skip(4) =~= key);
        lemma_browse_bounds(file, start, whole);
        assert(rows.contains((whole, value)) <==> m.contains_key(whole) && m[whole] == value && in_bounds(
            whole,
            lo,
            hi,
        ));
        if all.contains((key, value)) {
            let i = choose|i: int| 0 <= i < all.len() && all[i] == (key, value);
            assert(rows[i].0.len() >= 4);
            assert(rows[i] == (whole, value));
            assert(rows.contains((whole, value)));
        }
        if rows.contains((whole, value)) {
            let i = choose|i: int| 0 <= i < rows.len() && rows[i] == (whole, value);
            assert(i < n);
            assert(front[i] == rows[i]);
            assert(all[i] == (key, value));
        }
    }
    n
}

/// The rows with long enough keys come first.
proof fn lemma_front(rows: Seq<Row>, file: FileId, start: Option<Seq<u8>>) -> (n: int)
    requires
        in_key_order(rows),
        forall|i: int|
            0 <= i < rows.len() ==> in_bounds((#[trigger] rows[i]).0, Some(browse_from(file, start)), None),
        forall|i: int|
            0 <= i < rows.len() && (#[trigger] rows[i]).0.len() >= 4 ==> rows[i].0 == stored_key(
                file,
                rows[i].0.skip(4),
            ),
    ensures
        0 <= n <= rows.len(),
        forall|i: int| 0 <= i < n ==> (#[trigger] rows[i]).0.len() >= 4,
        forall|i: int| n <= i < rows.len() ==> (#[trigger] rows[i]).0.len() < 4,
    decreases rows.len(),
{
    if rows.len() == 0 {
        0
    } else {
        let fewer = rows.drop_last();
        let last = rows.last();
        assert forall|i: int| 0 <= i < fewer.len() implies #[trigger] fewer[i] == rows[i] by {}
        let n = lemma_front(fewer, file, start);
        assert forall|i: int| 0 <= i < n implies (#[trigger] rows[i]).0.len() >= 4 by {
            assert(fewer[i] == rows[i]);
        }
        assert forall|i: int| n <= i < fewer.len() implies (#[trigger] rows[i]).0.len() < 4 by {
            assert(fewer[i] == rows[i]);
        }
        if last.0.len() >= 4 {
            if n < fewer.len() {
                let k = rows[n].0;
                assert(rows[rows.len() - 1] == last);
                lemma_short_keys_come_last(file, start, k, last.0.skip(4));
                assert(key_lt(k, last.0));
                key_order_is_strict(k, last.0);
            }
            rows.len() as int
        } else {
            n
        }
    }
}

} // verus!
