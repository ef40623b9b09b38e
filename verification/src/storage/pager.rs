//! Page-oriented access to the store file: fixed-size pages, and a
//! double-buffered meta page through which a commit becomes visible at once.
//!
//! The file is held as bytes. Every change to them is also recorded as a
//! [`FileOp`], in order, so that whoever owns the real file can carry the same
//! changes out on it.

use vstd::prelude::*;

use super::codec::{decode_page, encode_page, page_for, record_in, PageRecord};
use super::wire::{deserialize_meta, lemma_integers, meta_bytes, meta_reads_once, serialize_meta};
use crate::error::{CicsError, Result};

verus! {

/// Bytes in a page.
pub const PAGE_SIZE: usize = 4096;

/// Marks a meta page of this store.
pub const MAGIC: u32 = 0xC1C5_7B0B;

/// Pages zero and one hold the meta record in turn.
pub const META_PAGE_COUNT: u64 = 2;

/// A page's number, which is its place in the file.
pub type PageId = u64;

/// The root of atomicity: the record that says which tree is the committed one.
#[derive(Debug, Clone, Copy)]
pub struct Meta {
    pub magic: u32,
    pub txn_id: u64,
    pub root: Option<PageId>,
    pub next_page: PageId,
    /// First page of the persisted list of pages that past commits left
    /// unreachable.
    pub free_list_head: Option<PageId>,
}

impl View for Meta {
    type V = Meta;

    open spec fn view(&self) -> Meta {
        *self
    }
}

impl PageRecord for Meta {
    open spec fn body(v: Meta) -> Seq<u8> {
        meta_bytes(v.magic, v.txn_id, v.root, v.next_page, v.free_list_head)
    }

    proof fn body_reads_once(a: Meta, b: Meta, bytes: Seq<u8>) {
        meta_reads_once(
            a.magic,
            a.txn_id,
            a.root,
            a.next_page,
            a.free_list_head,
            b.magic,
            b.txn_id,
            b.root,
            b.next_page,
            b.free_list_head,
            bytes,
        );
    }

    fn to_body(&self) -> (r: Vec<u8>) {
        serialize_meta(self.magic, self.txn_id, self.root, self.next_page, self.free_list_head).unwrap()
    }

    fn from_body(bytes: &[u8]) -> (r: Option<Meta>) {
        match deserialize_meta(bytes) {
            Some(x) => Some(Meta { magic: x.0, txn_id: x.1, root: x.2, next_page: x.3, free_list_head: x.4 }),
            None => None,
        }
    }

    fn body_len(&self) -> (r: usize) {
        proof {
            lemma_meta_fits(*self);
        }
        self.to_body().len()
    }
}

/// A meta record always fits in a page.
pub proof fn lemma_meta_fits(m: Meta)
    ensures
        Meta::body(m).len() <= 38,
{
    lemma_integers();
}

impl Meta {
    /// The record of the commit after this one.
    pub fn advance(&self, root: Option<PageId>, next_page: PageId, free_list_head: Option<PageId>) -> (r: Meta)
        requires
            self.txn_id < u64::MAX,
        ensures
            r == (Meta { magic: self.magic, txn_id: (self.txn_id + 1) as u64, root, next_page, free_list_head }),
    {
        Meta { magic: self.magic, txn_id: self.txn_id + 1, root, next_page, free_list_head }
    }

    /// The page for this record.
    pub fn encode(&self) -> (page: [u8; PAGE_SIZE])
        ensures
            page@ == page_for::<Meta>(*self),
    {
        proof {
            lemma_meta_fits(*self);
        }
        encode_page(self)
    }

    /// The record that a page holds, if it is one of this store.
    pub fn decode(page: &[u8; PAGE_SIZE]) -> (r: Option<Meta>)
        ensures
            r == meta_on(page@),
    {
        let meta: Meta = match decode_page(page) {
            Some(meta) => meta,
            None => {
                return None;
            },
        };
        if meta.magic != MAGIC {
            return None;
        }
        Some(meta)
    }
}

/// The meta record of this store that a page holds.
pub open spec fn meta_on(page: Seq<u8>) -> Option<Meta> {
    match record_in::<Meta>(page) {
        Some(m) => if m.magic == MAGIC {
            Some(m)
        } else {
            None
        },
        None => None,
    }
}

/// The file reaches to the end of page `id`.
pub open spec fn has_page(file: Seq<u8>, id: int) -> bool {
    0 <= id && (id + 1) * PAGE_SIZE <= file.len()
}

/// How many whole pages the file has.
pub open spec fn page_count(file: Seq<u8>) -> int {
    file.len() as int / PAGE_SIZE as int
}

/// The bytes of page `id`.
pub open spec fn page_at(file: Seq<u8>, id: int) -> Seq<u8> {
    file.subrange(id * PAGE_SIZE, (id + 1) * PAGE_SIZE)
}

/// The file with page `id` replaced, grown with zeros where it was too short.
pub open spec fn with_page(file: Seq<u8>, id: int, page: Seq<u8>) -> Seq<u8> {
    let end = (id + 1) * PAGE_SIZE;
    Seq::new(
        if file.len() < end {
            end as nat
        } else {
            file.len()
        },
        |i: int|
            if id * PAGE_SIZE <= i < end {
                page[i - id * PAGE_SIZE]
            } else if i < file.len() {
                file[i]
            } else {
                0u8
            },
    )
}

/// Replacing a page puts it there, leaves every other page as it was, and does
/// not make the file shorter.
pub proof fn replacing_a_page_leaves_the_others(file: Seq<u8>, id: int, page: Seq<u8>)
    requires
        0 <= id,
        page.len() == PAGE_SIZE,
    ensures
        has_page(with_page(file, id, page), id),
        page_at(with_page(file, id, page), id) == page,
        with_page(file, id, page).len() >= file.len(),
        forall|j: int|
            #![trigger page_at(with_page(file, id, page), j)]
            j != id && has_page(file, j) ==> page_at(with_page(file, id, page), j) == page_at(file, j),
{
    let after = with_page(file, id, page);
    assert(page_at(after, id) =~= page);
    assert forall|j: int| #![trigger page_at(after, j)] j != id && has_page(file, j) implies page_at(after, j)
        == page_at(file, j) by {
        assert(page_at(after, j) =~= page_at(file, j));
    }
}

/// One change to the real file.
#[derive(Debug)]
pub enum FileOp {
    /// Make the file this many bytes long.
    SetLen(u64),
    /// Write these bytes at the start of this page.
    Write(PageId, Vec<u8>),
    /// Make everything written so far durable.
    Sync,
}

/// What a [`FileOp`] asks for.
#[verifier::ext_equal]
pub enum Change {
    SetLen(u64),
    Write(PageId, Seq<u8>),
    Sync,
}

impl View for FileOp {
    type V = Change;

    open spec fn view(&self) -> Change {
        match *self {
            FileOp::SetLen(n) => Change::SetLen(n),
            FileOp::Write(id, bytes) => Change::Write(id, bytes@),
            FileOp::Sync => Change::Sync,
        }
    }
}

/// What a list of [`FileOp`]s asks for.
pub open spec fn changes_of(ops: Seq<FileOp>) -> Seq<Change> {
    ops.map_values(|op: FileOp| op@)
}

/// What a change makes of a file.
pub open spec fn applied(file: Seq<u8>, change: Change) -> Seq<u8> {
    match change {
        Change::SetLen(n) => Seq::new(
            n as nat,
            |i: int|
                if i < file.len() {
                    file[i]
                } else {
                    0u8
                },
        ),
        Change::Write(id, bytes) => with_page(file, id as int, bytes),
        Change::Sync => file,
    }
}

/// What a series of changes makes of a file.
pub open spec fn replayed(file: Seq<u8>, changes: Seq<Change>) -> Seq<u8>
    decreases changes.len(),
{
    if changes.len() == 0 {
        file
    } else {
        applied(replayed(file, changes.drop_last()), changes.last())
    }
}

/// One more change is replayed after the others.
pub proof fn lemma_replay_push(file: Seq<u8>, changes: Seq<Change>, change: Change)
    ensures
        replayed(file, changes.push(change)) == applied(replayed(file, changes), change),
{
    assert(changes.push(change).drop_last() =~= changes);
}

/// A series is replayed where the one before it ended.
pub proof fn lemma_replay_concat(file: Seq<u8>, first: Seq<Change>, second: Seq<Change>)
    ensures
        replayed(file, first + second) == replayed(replayed(file, first), second),
    decreases second.len(),
{
    if second.len() == 0 {
        assert(first + second =~= first);
    } else {
        lemma_replay_concat(file, first, second.drop_last());
        assert((first + second).drop_last() =~= first + second.drop_last());
    }
}

/// The meta record in slot `slot` of a file.
pub open spec fn meta_in(file: Seq<u8>, slot: int) -> Option<Meta> {
    if has_page(file, slot) {
        meta_on(page_at(file, slot))
    } else {
        None
    }
}

/// The slot and the meta record that opening a file settles on: the newer of
/// the two that can be read, or the one that can.
pub open spec fn recovered(file: Seq<u8>) -> Option<(u64, Meta)> {
    match (meta_in(file, 0), meta_in(file, 1)) {
        (Some(a), Some(b)) => if a.txn_id >= b.txn_id {
            Some((0u64, a))
        } else {
            Some((1u64, b))
        },
        (Some(a), None) => Some((0u64, a)),
        (None, Some(b)) => Some((1u64, b)),
        (None, None) => None,
    }
}

/// The file, grown with zeros to `len` bytes where it is shorter.
pub open spec fn extended(file: Seq<u8>, len: int) -> Seq<u8> {
    if file.len() < len {
        Seq::new(
            len as nat,
            |i: int|
                if i < file.len() {
                    file[i]
                } else {
                    0u8
                },
        )
    } else {
        file
    }
}

/// Zeros behind the file's end do not make a meta page readable that would then
/// be the latest. That is so of every file with both meta pages.
pub open spec fn is_steady(file: Seq<u8>) -> bool {
    recovered(extended(file, META_PAGE_COUNT * PAGE_SIZE)) == recovered(file)
}

/// Writing pages behind the meta pages leaves those, and fills up with zeros
/// what is missing of them.
pub proof fn writes_keep_meta_pages(file: Seq<u8>, changes: Seq<Change>, start: int, end: int)
    requires
        META_PAGE_COUNT <= start,
        only_pages(changes, start, end),
    ensures
        ({
            let after = replayed(file, changes);
            ||| after == file
            ||| {
                &&& after.len() >= META_PAGE_COUNT * PAGE_SIZE
                &&& forall|i: int|
                    0 <= i < META_PAGE_COUNT * PAGE_SIZE ==> #[trigger] after[i] == extended(
                        file,
                        META_PAGE_COUNT * PAGE_SIZE,
                    )[i]
            }
        }),
    decreases changes.len(),
{
    if changes.len() > 0 {
        let fewer = changes.drop_last();
        assert(only_pages(fewer, start, end)) by {
            assert forall|i: int| 0 <= i < fewer.len() implies (#[trigger] fewer[i] matches Change::Write(id, page)
                && start <= id < end && page.len() == PAGE_SIZE) by {
                assert(fewer[i] == changes[i]);
            }
        }
        writes_keep_meta_pages(file, fewer, start, end);
        assert(changes[changes.len() - 1] == changes.last());
        let middle = replayed(file, fewer);
        let after = replayed(file, changes);
        let full = extended(file, META_PAGE_COUNT * PAGE_SIZE);
        match changes.last() {
            Change::Write(id, page) => {
                assert(after == with_page(middle, id as int, page));
                assert forall|i: int| 0 <= i < META_PAGE_COUNT * PAGE_SIZE implies #[trigger] after[i] == full[i] by {
                    if middle != file {
                        assert(middle[i] == full[i]);
                    }
                }
            },
            _ => {},
        }
    }
}

/// The meta record of a store that nothing was committed to.
pub open spec fn first_meta() -> Meta {
    Meta { magic: MAGIC, txn_id: 0, root: None, next_page: META_PAGE_COUNT, free_list_head: None }
}

/// The file of a store that nothing was committed to.
pub open spec fn first_file() -> Seq<u8> {
    page_for::<Meta>(first_meta()) + page_for::<Meta>(first_meta())
}

/// The changes that make the file of a new store.
pub open spec fn first_changes() -> Seq<Change> {
    seq![
        Change::SetLen(8192),
        Change::Write(0, page_for::<Meta>(first_meta())),
        Change::Sync,
        Change::Write(1, page_for::<Meta>(first_meta())),
        Change::Sync,
    ]
}

/// Every change writes a page from `start` to before `end`.
pub open spec fn only_pages(changes: Seq<Change>, start: int, end: int) -> bool {
    forall|i: int|
        0 <= i < changes.len() ==> (#[trigger] changes[i] matches Change::Write(id, page) && start <= id < end
            && page.len() == PAGE_SIZE)
}

/// `after` has every page of `before` but those from `start` to before `end`,
/// and is not shorter.
pub open spec fn agree_outside(before: Seq<u8>, after: Seq<u8>, start: int, end: int) -> bool {
    &&& before.len() <= after.len()
    &&& forall|j: int|
        #![trigger page_at(after, j)]
        has_page(before, j) && !(start <= j < end) ==> page_at(after, j) == page_at(before, j)
}

/// Writing pages leaves the others as they were.
pub proof fn writes_leave_other_pages(file: Seq<u8>, changes: Seq<Change>, start: int, end: int)
    requires
        0 <= start,
        only_pages(changes, start, end),
    ensures
        agree_outside(file, replayed(file, changes), start, end),
    decreases changes.len(),
{
    if changes.len() > 0 {
        let fewer = changes.drop_last();
        assert(only_pages(fewer, start, end)) by {
            assert forall|i: int| 0 <= i < fewer.len() implies (#[trigger] fewer[i] matches Change::Write(id, page)
                && start <= id < end && page.len() == PAGE_SIZE) by {
                assert(fewer[i] == changes[i]);
            }
        }
        writes_leave_other_pages(file, fewer, start, end);
        let middle = replayed(file, fewer);
        assert(changes[changes.len() - 1] == changes.last());
        match changes.last() {
            Change::Write(id, page) => {
                replacing_a_page_leaves_the_others(middle, id as int, page);
                let after = replayed(file, changes);
                assert forall|j: int|
                    #![trigger page_at(after, j)]
                    has_page(file, j) && !(start <= j < end) implies page_at(after, j) == page_at(file, j) by {
                    assert(page_at(middle, j) == page_at(file, j));
                }
            },
            _ => {},
        }
    }
}

/// From `before` to `after`, pages from `start` to before `end` were written
/// and nothing else was done.
pub open spec fn wrote(before: Pager, after: Pager, start: int, end: int) -> bool {
    let changes = after.outbox().skip(before.outbox().len() as int);
    &&& after.wf()
    &&& after.slot() == before.slot()
    &&& after.outbox() == before.outbox() + changes
    &&& only_pages(changes, start, end)
    &&& after.file() == replayed(before.file(), changes)
    &&& after.confirmed() == confirmed_after(before.confirmed(), changes)
}

/// What there is to go back to after pages were written: what there was, with
/// those pages if it has both meta pages.
pub open spec fn confirmed_after(confirmed: Seq<u8>, changes: Seq<Change>) -> Seq<u8> {
    if confirmed.len() < META_PAGE_COUNT * PAGE_SIZE {
        confirmed
    } else {
        replayed(confirmed, changes)
    }
}

/// Nothing was done.
pub proof fn lemma_wrote_nothing(pager: Pager, start: int, end: int)
    requires
        pager.wf(),
    ensures
        wrote(pager, pager, start, end),
{
    assert(pager.outbox().skip(pager.outbox().len() as int) =~= Seq::<Change>::empty());
    assert(pager.outbox() + Seq::<Change>::empty() =~= pager.outbox());
}

/// Pages were written, and then some more.
pub proof fn lemma_wrote_more(a: Pager, b: Pager, c: Pager, start: int, end: int)
    requires
        0 <= start,
        wrote(a, b, start, end),
        wrote(b, c, start, end),
    ensures
        wrote(a, c, start, end),
{
    let first = b.outbox().skip(a.outbox().len() as int);
    let second = c.outbox().skip(b.outbox().len() as int);
    let both = c.outbox().skip(a.outbox().len() as int);
    assert(c.outbox() =~= a.outbox() + (first + second));
    assert(both =~= first + second);
    lemma_replay_concat(a.file(), first, second);
    lemma_replay_concat(a.confirmed(), first, second);
    writes_leave_other_pages(a.confirmed(), first, start, end);
    assert forall|i: int| 0 <= i < both.len() implies (#[trigger] both[i] matches Change::Write(id, page) && start <= id
        < end && page.len() == PAGE_SIZE) by {
        if i < first.len() {
            assert(both[i] == first[i]);
        } else {
            assert(both[i] == second[i - first.len()]);
        }
    }
}

/// Pages of a part of a range are pages of the range.
pub proof fn lemma_wrote_widened(a: Pager, b: Pager, start: int, end: int, start2: int, end2: int)
    requires
        wrote(a, b, start, end),
        start2 <= start,
        end <= end2,
    ensures
        wrote(a, b, start2, end2),
{
    let changes = b.outbox().skip(a.outbox().len() as int);
    assert forall|i: int| 0 <= i < changes.len() implies (#[trigger] changes[i] matches Change::Write(id, page)
        && start2 <= id < end2 && page.len() == PAGE_SIZE) by {
        assert(changes[i] matches Change::Write(id, page) && start <= id < end);
    }
}

/// One page was written.
pub proof fn lemma_wrote_page(a: Pager, b: Pager, id: PageId, page: Seq<u8>)
    requires
        b.wf(),
        page.len() == PAGE_SIZE,
        b.slot() == a.slot(),
        b.outbox() == a.outbox().push(Change::Write(id, page)),
        b.file() == with_page(a.file(), id as int, page),
        b.confirmed() == if a.confirmed().len() < META_PAGE_COUNT * PAGE_SIZE {
            a.confirmed()
        } else {
            with_page(a.confirmed(), id as int, page)
        },
    ensures
        wrote(a, b, id as int, id + 1),
{
    let changes = b.outbox().skip(a.outbox().len() as int);
    assert(changes =~= seq![Change::Write(id, page)]);
    assert(b.outbox() =~= a.outbox() + changes);
    let none = Seq::<Change>::empty();
    assert(changes =~= none.push(Change::Write(id, page)));
    lemma_replay_push(a.file(), none, Change::Write(id, page));
    lemma_replay_push(a.confirmed(), none, Change::Write(id, page));
}

/// The error says that a file has no meta page that can be read.
pub open spec fn is_corrupt(e: CicsError) -> bool {
    e matches CicsError::Io(message) && message@ == "no valid meta page found; store file is corrupt"@
}

/// The error says that a file ends before a page.
pub open spec fn is_too_short(e: CicsError) -> bool {
    e matches CicsError::Io(message) && message@ == "failed to fill whole buffer"@
}

/// The store file, and the changes to it that the real file has not confirmed.
pub struct Pager {
    file: Vec<u8>,
    /// The meta slot that holds the latest commit.
    active_meta_slot: u64,
    outbox: Vec<FileOp>,
    /// The meta pages, or what there was of them, when the store was opened or the
    /// real file last confirmed them.
    confirmed_head: Vec<u8>,
}

impl Pager {
    /// The file's bytes.
    pub closed spec fn file(&self) -> Seq<u8> {
        self.file@
    }

    /// The meta slot that holds the latest commit.
    pub closed spec fn slot(&self) -> u64 {
        self.active_meta_slot
    }

    /// The changes that the real file has not confirmed, in order.
    pub closed spec fn outbox(&self) -> Seq<Change> {
        changes_of(self.outbox@)
    }

    /// What a revert goes back to: the meta pages as they were when the store was
    /// opened or the real file last confirmed them, and the other pages as they
    /// stand. A new store counts as opened with its first pages, though these are
    /// still to be written. Where the file ended before its second meta page, it
    /// is the file as it was.
    pub closed spec fn confirmed(&self) -> Seq<u8> {
        if self.confirmed_head@.len() < 2 * PAGE_SIZE {
            self.confirmed_head@
        } else {
            self.confirmed_head@ + self.file@.skip(2 * PAGE_SIZE)
        }
    }

    /// The file has the meta pages that were confirmed.
    pub closed spec fn wf(&self) -> bool {
        &&& self.confirmed_head@.len() <= 2 * PAGE_SIZE
        &&& self.confirmed_head@.len() == 2 * PAGE_SIZE ==> self.file@.len() >= 2 * PAGE_SIZE
    }

    /// Opens a store from the bytes of its file, or a new store where there is
    /// no file. A file without a readable meta page is corrupt. Nothing of a file
    /// that there is is changed.
    pub fn open(image: Option<Vec<u8>>) -> (r: Result<(Pager, Meta)>)
        ensures
            match image {
                None => {
                    &&& r matches Ok((pager, meta))
                    &&& pager.wf()
                    &&& meta == first_meta()
                    &&& pager.file() == first_file()
                    &&& pager.confirmed() == first_file()
                    &&& pager.slot() == 0
                    &&& pager.outbox() == first_changes()
                },
                Some(bytes) => match recovered(bytes@) {
                    Some((slot, meta)) => {
                        &&& r matches Ok((pager, m))
                        &&& pager.wf()
                        &&& m == meta
                        &&& pager.file() == bytes@
                        &&& pager.confirmed() == bytes@
                        &&& pager.slot() == slot
                        &&& pager.outbox() == Seq::<Change>::empty()
                    },
                    None => r matches Err(e) && is_corrupt(e),
                },
            },
    {
        match image {
            None => {
                let meta = Meta {
                    magic: MAGIC,
                    txn_id: 0,
                    root: None,
                    next_page: META_PAGE_COUNT,
                    free_list_head: None,
                };
                let mut pager = Pager {
                    file: Vec::new(),
                    active_meta_slot: 0,
                    outbox: Vec::new(),
                    confirmed_head: Vec::new(),
                };
                assert(pager.outbox() =~= Seq::<Change>::empty());
                pager.set_len(META_PAGE_COUNT * PAGE_SIZE as u64);
                pager.write_meta_slot(0, &meta);
                pager.write_meta_slot(1, &meta);
                proof {
                    lemma_meta_fits(meta);
                    lemma_integers();
                    assert(pager.file() =~= first_file());
                    assert(pager.outbox() =~= first_changes());
                }
                pager.keep_head();
                Ok((pager, meta))
            },
            Some(bytes) => {
                let mut pager = Pager {
                    file: bytes,
                    active_meta_slot: 0,
                    outbox: Vec::new(),
                    confirmed_head: Vec::new(),
                };
                assert(pager.outbox() =~= Seq::<Change>::empty());
                match pager.recover() {
                    Some((slot, meta)) => {
                        pager.active_meta_slot = slot;
                        pager.keep_head();
                        Ok((pager, meta))
                    },
                    None => Err(CicsError::Io("no valid meta page found; store file is corrupt".to_owned())),
                }
            },
        }
    }

    /// Settles on the newest meta record that can be read.
    fn recover(&self) -> (r: Option<(u64, Meta)>)
        ensures
            r == recovered(self.file()),
    {
        let m0 = self.read_meta_slot(0);
        let m1 = self.read_meta_slot(1);
        match (m0, m1) {
            (Some(a), Some(b)) => {
                if a.txn_id >= b.txn_id {
                    Some((0, a))
                } else {
                    Some((1, b))
                }
            },
            (Some(a), None) => Some((0, a)),
            (None, Some(b)) => Some((1, b)),
            (None, None) => None,
        }
    }

    /// Remembers the meta pages as they stand.
    fn keep_head(&mut self)
        ensures
            final(self).wf(),
            final(self).file() == old(self).file(),
            final(self).slot() == old(self).slot(),
            final(self).outbox() == old(self).outbox(),
            final(self).confirmed() == old(self).file(),
    {
        let len: usize = if self.file.len() < 2 * PAGE_SIZE {
            self.file.len()
        } else {
            2 * PAGE_SIZE
        };
        self.confirmed_head = vstd::slice::slice_to_vec(vstd::slice::slice_subrange(self.file.as_slice(), 0, len));
        assert(self.confirmed() =~= self.file@);
    }

    /// Makes the file `len` bytes long.
    fn set_len(&mut self, len: u64)
        requires
            len <= usize::MAX,
        ensures
            final(self).outbox() == old(self).outbox().push(Change::SetLen(len)),
            final(self).file() == applied(old(self).file(), Change::SetLen(len)),
            final(self).slot() == old(self).slot(),
    {
        self.file.resize(len as usize, 0);
        self.outbox.push(FileOp::SetLen(len));
        assert(self.outbox() =~= old(self).outbox().push(Change::SetLen(len)));
        let ghost after = applied(old(self).file@, Change::SetLen(len));
        assert(self.file@ =~= after) by {
            if old(self).file@.len() < len {
                assert forall|i: int| 0 <= i < len implies self.file@[i] == after[i] by {
                    if i < old(self).file@.len() {
                        assert(self.file@.subrange(0, old(self).file@.len() as int)[i] == old(self).file@[i]);
                    } else {
                        assert(cloned::<u8>(0u8, self.file@[i]));
                    }
                }
            }
        }
    }

    /// The meta record in a slot, if it can be read.
    fn read_meta_slot(&self, slot: u64) -> (r: Option<Meta>)
        ensures
            r == meta_in(self.file(), slot as int),
    {
        match self.read_page(slot) {
            Ok(page) => Meta::decode(&page),
            Err(_) => None,
        }
    }

    /// Writes a meta record to a slot and makes it durable.
    fn write_meta_slot(&mut self, slot: u64, meta: &Meta)
        requires
            slot < META_PAGE_COUNT,
        ensures
            final(self).file() == with_page(old(self).file(), slot as int, page_for::<Meta>(*meta)),
            final(self).slot() == old(self).slot(),
            final(self).outbox() == old(self).outbox().push(Change::Write(slot, page_for::<Meta>(*meta))).push(
                Change::Sync,
            ),
            old(self).wf() ==> final(self).wf() && final(self).confirmed() == old(self).confirmed(),
    {
        let page = meta.encode();
        self.write_page(slot, &page);
        self.sync_data();
    }

    /// Publishes a meta record in the slot that does not hold the latest commit.
    pub fn commit_meta(&mut self, meta: &Meta)
        requires
            old(self).slot() < META_PAGE_COUNT,
        ensures
            final(self).slot() == 1 - old(self).slot(),
            final(self).file() == with_page(old(self).file(), 1 - old(self).slot(), page_for::<Meta>(*meta)),
            final(self).outbox() == old(self).outbox().push(
                Change::Write((1 - old(self).slot()) as u64, page_for::<Meta>(*meta)),
            ).push(Change::Sync),
            old(self).wf() ==> final(self).wf() && final(self).confirmed() == old(self).confirmed(),
    {
        let next_slot: u64 = 1 - self.active_meta_slot;
        self.write_meta_slot(next_slot, meta);
        self.active_meta_slot = next_slot;
    }

    /// How many whole pages the file has.
    pub fn pages(&self) -> (r: u64)
        ensures
            r == page_count(self.file()),
    {
        (self.file.len() / PAGE_SIZE) as u64
    }

    /// The bytes of a page, if the file reaches that far.
    pub fn read_page(&self, id: PageId) -> (r: Result<[u8; PAGE_SIZE]>)
        ensures
            match r {
                Ok(page) => has_page(self.file(), id as int) && page@ == page_at(self.file(), id as int),
                Err(e) => !has_page(self.file(), id as int) && is_too_short(e),
            },
    {
        if id >= (self.file.len() / PAGE_SIZE) as u64 {
            return Err(CicsError::Io("failed to fill whole buffer".to_owned()));
        }
        let start: usize = id as usize * PAGE_SIZE;
        let mut page = [0u8; PAGE_SIZE];
        let mut i: usize = 0;
        while i < PAGE_SIZE
            invariant
                i <= PAGE_SIZE,
                start == id * PAGE_SIZE,
                start + PAGE_SIZE <= self.file@.len(),
                forall|j: int| 0 <= j < i ==> page@[j] == self.file@[start + j],
            decreases PAGE_SIZE - i,
        {
            page[i] = self.file[start + i];
            i += 1;
        }
        assert(page@ =~= page_at(self.file@, id as int));
        Ok(page)
    }

    /// Replaces a page, growing the file as far as it has to.
    pub fn write_page(&mut self, id: PageId, page: &[u8; PAGE_SIZE])
        requires
            (id + 1) * PAGE_SIZE <= usize::MAX,
        ensures
            final(self).file() == with_page(old(self).file(), id as int, page@),
            final(self).slot() == old(self).slot(),
            final(self).outbox() == old(self).outbox().push(Change::Write(id, page@)),
            old(self).wf() ==> final(self).wf() && final(self).confirmed() == if id < META_PAGE_COUNT || old(
                self,
            ).confirmed().len() < META_PAGE_COUNT * PAGE_SIZE {
                old(self).confirmed()
            } else {
                with_page(old(self).confirmed(), id as int, page@)
            },
    {
        let start: usize = id as usize * PAGE_SIZE;
        let ghost before = self.file@;
        if self.file.len() < start + PAGE_SIZE {
            self.file.resize(start + PAGE_SIZE, 0);
            proof {
                assert forall|i: int| 0 <= i < before.len() implies self.file@[i] == before[i] by {
                    assert(self.file@.subrange(0, before.len() as int)[i] == before[i]);
                }
                assert forall|i: int| before.len() <= i < self.file@.len() implies self.file@[i] == 0u8 by {
                    assert(cloned::<u8>(0u8, self.file@[i]));
                }
            }
        }
        let ghost len = self.file@.len();
        let mut i: usize = 0;
        while i < PAGE_SIZE
            invariant
                i <= PAGE_SIZE,
                start == id * PAGE_SIZE,
                start + PAGE_SIZE <= len,
                before.len() <= len,
                len == before.len() || len == start + PAGE_SIZE,
                self.file@.len() == len,
                forall|j: int| 0 <= j < i ==> self.file@[start + j] == page@[j],
                forall|j: int| #![auto] 0 <= j < len && !(start <= j < start + i) ==> self.file@[j] == if j < before.len() {
                    before[j]
                } else {
                    0u8
                },
                self.outbox == old(self).outbox,
                self.active_meta_slot == old(self).active_meta_slot,
                self.confirmed_head == old(self).confirmed_head,
            decreases PAGE_SIZE - i,
        {
            self.file[start + i] = page[i];
            i += 1;
        }
        proof {
            let after = with_page(before, id as int, page@);
            assert forall|j: int| 0 <= j < len implies self.file@[j] == after[j] by {
                if start <= j < start + PAGE_SIZE {
                    assert(self.file@[start + (j - start)] == page@[j - start]);
                }
            }
            assert(self.file@ =~= after);
        }
        self.outbox.push(FileOp::Write(id, vstd::slice::slice_to_vec(page.as_slice())));
        assert(self.outbox() =~= old(self).outbox().push(Change::Write(id, page@)));
        proof {
            if old(self).wf() {
                if id < META_PAGE_COUNT || self.confirmed_head@.len() < 2 * PAGE_SIZE {
                    assert(self.confirmed() =~= old(self).confirmed());
                } else {
                    assert(self.confirmed() =~= with_page(old(self).confirmed(), id as int, page@));
                }
            }
        }
    }

    /// Asks for everything written so far to be made durable.
    pub fn sync_data(&mut self)
        ensures
            final(self).file() == old(self).file(),
            final(self).slot() == old(self).slot(),
            final(self).outbox() == old(self).outbox().push(Change::Sync),
            final(self).confirmed() == old(self).confirmed(),
            old(self).wf() ==> final(self).wf(),
    {
        self.outbox.push(FileOp::Sync);
        assert(self.outbox() =~= old(self).outbox().push(Change::Sync));
    }

    /// The changes that the real file has not confirmed, in order.
    pub fn pending(&self) -> (r: &Vec<FileOp>)
        ensures
            changes_of(r@) == self.outbox(),
    {
        &self.outbox
    }

    /// Every change was carried out on the real file.
    pub fn confirm(&mut self)
        requires
            old(self).wf(),
        ensures
            final(self).wf(),
            final(self).file() == old(self).file(),
            final(self).slot() == old(self).slot(),
            final(self).confirmed() == old(self).file(),
            final(self).outbox() == Seq::<Change>::empty(),
    {
        self.keep_head();
        self.outbox.clear();
        assert(self.outbox() =~= Seq::<Change>::empty());
    }

    /// The changes could not all be carried out: goes back to the meta pages
    /// that the real file last confirmed, and returns the record to go on from.
    pub fn revert(&mut self) -> (meta: Meta)
        requires
            old(self).wf(),
            recovered(old(self).confirmed()) is Some,
        ensures
            final(self).wf(),
            final(self).file() == old(self).confirmed(),
            final(self).confirmed() == old(self).confirmed(),
            recovered(old(self).confirmed()) == Some((final(self).slot(), meta)),
            final(self).outbox() == Seq::<Change>::empty(),
    {
        if self.confirmed_head.len() < 2 * PAGE_SIZE {
            self.file = vstd::slice::slice_to_vec(self.confirmed_head.as_slice());
        } else {
            let mut i: usize = 0;
            while i < 2 * PAGE_SIZE
                invariant
                    i <= 2 * PAGE_SIZE,
                    self.confirmed_head == old(self).confirmed_head,
                    self.confirmed_head@.len() == 2 * PAGE_SIZE <= self.file@.len(),
                    self.file@.len() == old(self).file@.len(),
                    forall|j: int| 0 <= j < i ==> self.file@[j] == self.confirmed_head@[j],
                    forall|j: int| 2 * PAGE_SIZE <= j < self.file@.len() ==> self.file@[j] == old(self).file@[j],
                decreases 2 * PAGE_SIZE - i,
            {
                self.file[i] = self.confirmed_head[i];
                i += 1;
            }
        }
        self.outbox.clear();
        assert(self.outbox() =~= Seq::<Change>::empty());
        assert(self.file@ =~= old(self).confirmed());
        assert(self.confirmed() =~= old(self).confirmed());
        let (slot, meta) = self.recover().unwrap();
        self.active_meta_slot = slot;
        meta
    }
}

} // verus!
