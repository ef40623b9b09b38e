//! What a store file holds, and why a commit is atomic.

use vstd::prelude::*;

use super::btree::stored_nodes;
use super::chain::{chained, chains_are_kept, is_chain, lemma_empty_chain};
use super::codec::{page_for, reading_gives_back_what_was_written};
use super::freelist::{FreeEntry, FreeListPage};
use super::pager::{
    agree_outside, extended, first_file, first_meta, has_page, is_steady, lemma_meta_fits, lemma_replay_push, meta_in,
    meta_on, only_pages, page_at, recovered, replacing_a_page_leaves_the_others, replayed, with_page,
    writes_keep_meta_pages, writes_leave_other_pages, Change, Meta, PageId, MAGIC, META_PAGE_COUNT, PAGE_SIZE,
};
use super::tree::{contents, contents_are_kept, height, is_even, is_store, lemma_same_pairs};
use super::wire::lemma_integers;

verus! {

/// What `meta` refers to is in the file: a tree and a free list, all of it on
/// pages before the next free one.
pub open spec fn is_committed(file: Seq<u8>, meta: Meta) -> bool {
    &&& META_PAGE_COUNT <= meta.next_page
    &&& is_store(stored_nodes(file), meta.root, meta.next_page as int)
    &&& is_chain::<FreeListPage>(
        file,
        meta.free_list_head,
        META_PAGE_COUNT as int,
        meta.next_page as int,
    )
}

/// The file of a store. It may end before its second meta page, if the record in
/// the first one can be read.
pub open spec fn is_store_file(file: Seq<u8>) -> bool {
    recovered(file) matches Some((slot, meta)) && is_committed(file, meta)
}

/// The record of a file's latest commit.
pub open spec fn latest(file: Seq<u8>) -> Meta {
    (recovered(file)->0).1
}

/// What the latest commit left in a file.
pub open spec fn stored(file: Seq<u8>) -> Map<Seq<u8>, Seq<u8>> {
    contents(stored_nodes(file), latest(file).root)
}

/// The free list that the latest commit left in a file.
pub open spec fn stored_free_list(file: Seq<u8>) -> Seq<FreeEntry> {
    chained::<FreeListPage>(file, latest(file).free_list_head)
}

/// Nodes on pages that two files share are the same.
pub proof fn lemma_nodes_kept(a: Seq<u8>, b: Seq<u8>, start: int, end: int)
    requires
        agree_outside(a, b, start, end),
    ensures
        forall|id: PageId|
            !(start <= id < end) && #[trigger] stored_nodes(a).contains_key(id) ==> stored_nodes(b).contains_key(id)
                && stored_nodes(b)[id] == stored_nodes(a)[id],
{
    assert forall|id: PageId| !(start <= id < end) && #[trigger] stored_nodes(a).contains_key(id) implies stored_nodes(
        b,
    ).contains_key(id) && stored_nodes(b)[id] == stored_nodes(a)[id] by {
        assert(page_at(b, id as int) == page_at(a, id as int));
    }
}

/// What is stored under a root is not affected by later pages.
pub proof fn snapshots_are_kept(a: Seq<u8>, b: Seq<u8>, root: Option<PageId>, start: int, end: int)
    requires
        agree_outside(a, b, start, end),
        is_store(stored_nodes(a), root, start),
    ensures
        is_store(stored_nodes(b), root, start),
        contents(stored_nodes(b), root) == contents(stored_nodes(a), root),
        height(stored_nodes(b), root) == height(stored_nodes(a), root),
        is_even(stored_nodes(b), root) == is_even(stored_nodes(a), root),
{
    lemma_nodes_kept(a, b, start, end);
    contents_are_kept(stored_nodes(a), stored_nodes(b), root, start);
}

/// What is stored under a root is not affected by the meta pages.
pub proof fn snapshots_ignore_meta_pages(a: Seq<u8>, b: Seq<u8>, root: Option<PageId>, limit: int)
    requires
        agree_outside(a, b, 0, META_PAGE_COUNT as int),
        is_store(stored_nodes(a), root, limit),
    ensures
        is_store(stored_nodes(b), root, limit),
        contents(stored_nodes(b), root) == contents(stored_nodes(a), root),
        height(stored_nodes(b), root) == height(stored_nodes(a), root),
        is_even(stored_nodes(b), root) == is_even(stored_nodes(a), root),
{
    lemma_nodes_kept(a, b, 0, META_PAGE_COUNT as int);
    contents_are_kept(stored_nodes(a), stored_nodes(b), root, limit);
}

/// Neither new pages nor the meta pages affect what a commit refers to.
pub proof fn commits_are_kept(a: Seq<u8>, b: Seq<u8>, meta: Meta, start: int, end: int)
    requires
        is_committed(a, meta),
        agree_outside(a, b, start, end),
        meta.next_page <= start || (0 <= start && end <= META_PAGE_COUNT),
    ensures
        is_committed(b, meta),
        contents(stored_nodes(b), meta.root) == contents(stored_nodes(a), meta.root),
        height(stored_nodes(b), meta.root) == height(stored_nodes(a), meta.root),
        is_even(stored_nodes(b), meta.root) == is_even(stored_nodes(a), meta.root),
        chained::<FreeListPage>(b, meta.free_list_head) == chained::<FreeListPage>(a, meta.free_list_head),
{
    chains_are_kept::<FreeListPage>(
        a,
        b,
        meta.free_list_head,
        META_PAGE_COUNT as int,
        meta.next_page as int,
        start,
        end,
    );
    lemma_nodes_kept(a, b, start, end);
    contents_are_kept(stored_nodes(a), stored_nodes(b), meta.root, meta.next_page as int);
}

/// A store that nothing was committed to is empty.
pub proof fn a_new_store_is_empty()
    ensures
        is_store_file(first_file()),
        recovered(first_file()) == Some((0u64, first_meta())),
        stored(first_file()) == Map::<Seq<u8>, Seq<u8>>::empty(),
        stored_free_list(first_file()) == Seq::<FreeEntry>::empty(),
{
    let file = first_file();
    let meta = first_meta();
    let page = page_for::<Meta>(meta);
    lemma_integers();
    lemma_meta_fits(meta);
    reading_gives_back_what_was_written::<Meta>(meta);
    assert(page.len() == PAGE_SIZE);
    assert(page_at(file, 0) =~= page);
    assert(page_at(file, 1) =~= page);
    lemma_empty_chain::<FreeListPage>(file, META_PAGE_COUNT as int, META_PAGE_COUNT as int);
    let m = Map::<Seq<u8>, Seq<u8>>::empty();
    lemma_same_pairs(stored_nodes(file), None, META_PAGE_COUNT as int, m);
}

/// What a commit asks of the file after which `slot` holds the latest record:
/// pages of data, all of them durable before the other slot gets the new record.
pub open spec fn commit_changes(data: Seq<Change>, slot: u64, meta: Meta) -> Seq<Change> {
    data + seq![Change::Sync, Change::Write((1 - slot) as u64, page_for::<Meta>(meta)), Change::Sync]
}

/// `data` is what a commit has to write to `file` before `meta` is its record:
/// new pages only, and all that `meta` refers to.
pub open spec fn is_commit(file: Seq<u8>, data: Seq<Change>, meta: Meta) -> bool {
    &&& is_store_file(file)
    &&& latest(file).next_page <= meta.next_page
    &&& only_pages(data, latest(file).next_page as int, meta.next_page as int)
    &&& meta.magic == MAGIC
    &&& meta.txn_id > latest(file).txn_id
    &&& is_committed(replayed(file, data), meta)
}

/// A newer record in the slot that does not hold the latest one becomes the
/// latest.
pub proof fn lemma_meta_written(file: Seq<u8>, slot: u64, old_meta: Meta, meta: Meta)
    requires
        slot < META_PAGE_COUNT,
        meta_in(file, slot as int) == Some(old_meta),
        meta.magic == MAGIC,
        meta.txn_id > old_meta.txn_id,
    ensures
        recovered(with_page(file, 1 - slot, page_for::<Meta>(meta))) == Some(((1 - slot) as u64, meta)),
        agree_outside(file, with_page(file, 1 - slot, page_for::<Meta>(meta)), 1 - slot, 2 - slot),
{
    let page = page_for::<Meta>(meta);
    let after = with_page(file, 1 - slot, page);
    lemma_integers();
    lemma_meta_fits(meta);
    assert(page.len() == PAGE_SIZE);
    reading_gives_back_what_was_written::<Meta>(meta);
    replacing_a_page_leaves_the_others(file, 1 - slot, page);
    assert(page_at(after, slot as int) == page_at(file, slot as int));
    assert(page_at(after, 1 - slot) == page);
    assert(meta_in(after, slot as int) == meta_in(file, slot as int));
    assert(meta_in(after, 1 - slot) == Some(meta));
}

/// A meta record is not affected by other pages.
pub proof fn lemma_record_kept(a: Seq<u8>, b: Seq<u8>, slot: u64, meta: Meta, start: int, end: int)
    requires
        meta_in(a, slot as int) == Some(meta),
        agree_outside(a, b, start, end),
        !(start <= slot < end),
    ensures
        meta_in(b, slot as int) == Some(meta),
{
    assert(page_at(b, slot as int) == page_at(a, slot as int));
}

/// Files with the same meta pages have the same latest commit.
pub proof fn lemma_same_latest(a: Seq<u8>, b: Seq<u8>, start: int, end: int)
    requires
        a.len() >= META_PAGE_COUNT * PAGE_SIZE,
        agree_outside(a, b, start, end),
        META_PAGE_COUNT <= start,
    ensures
        recovered(b) == recovered(a),
{
    assert(has_page(a, 0) && has_page(a, 1));
    assert(page_at(b, 0) == page_at(a, 0));
    assert(page_at(b, 1) == page_at(a, 1));
}

/// Replaying a commit is writing its pages and then its record.
pub proof fn lemma_commit_replayed(file: Seq<u8>, data: Seq<Change>, slot: u64, meta: Meta)
    ensures
        replayed(file, commit_changes(data, slot, meta)) == with_page(
            replayed(file, data),
            (1 - slot) as u64 as int,
            page_for::<Meta>(meta),
        ),
        replayed(file, data.push(Change::Sync)) == replayed(file, data),
{
    let record = Change::Write((1 - slot) as u64, page_for::<Meta>(meta));
    let one = data.push(Change::Sync);
    let two = one.push(record);
    lemma_replay_push(file, data, Change::Sync);
    lemma_replay_push(file, one, record);
    lemma_replay_push(file, two, Change::Sync);
    assert(commit_changes(data, slot, meta) =~= two.push(Change::Sync));
}

/// A commit that was carried out makes its store the file's, and exactly that.
pub proof fn a_commit_makes_its_store_the_latest(file: Seq<u8>, data: Seq<Change>, meta: Meta)
    requires
        is_commit(file, data, meta),
    ensures
        is_store_file(replayed(file, commit_changes(data, (recovered(file)->0).0, meta))),
        recovered(replayed(file, commit_changes(data, (recovered(file)->0).0, meta))) == Some(
            ((1 - (recovered(file)->0).0) as u64, meta),
        ),
        stored(replayed(file, commit_changes(data, (recovered(file)->0).0, meta))) == contents(
            stored_nodes(replayed(file, data)),
            meta.root,
        ),
        height(stored_nodes(replayed(file, commit_changes(data, (recovered(file)->0).0, meta))), meta.root) == height(
            stored_nodes(replayed(file, data)),
            meta.root,
        ),
        is_even(stored_nodes(replayed(file, commit_changes(data, (recovered(file)->0).0, meta))), meta.root)
            == is_even(stored_nodes(replayed(file, data)), meta.root),
        stored_free_list(replayed(file, commit_changes(data, (recovered(file)->0).0, meta))) == chained::<FreeListPage>(
            replayed(file, data),
            meta.free_list_head,
        ),
{
    let (slot, old_meta) = recovered(file)->0;
    let start = old_meta.next_page as int;
    let end = meta.next_page as int;
    let middle = replayed(file, data);
    writes_leave_other_pages(file, data, start, end);
    lemma_record_kept(file, middle, slot, old_meta, start, end);
    lemma_meta_written(middle, slot, old_meta, meta);
    lemma_commit_replayed(file, data, slot, meta);
    let after = replayed(file, commit_changes(data, slot, meta));
    commits_are_kept(middle, after, meta, 1 - slot, 2 - slot);
}

// ---------------------------------------------------------------------------
// Crashes
// ---------------------------------------------------------------------------

/// The change writes page `j`, or may.
pub open spec fn touches(change: Change, j: int) -> bool {
    match change {
        Change::SetLen(_) => true,
        Change::Write(id, _) => id == j,
        Change::Sync => false,
    }
}

/// What a crash may leave of a file while `writes` were under way: pages that
/// none of them touches are as they were, filled up with zeros where the file
/// ended in them, and those that one does can hold anything. Of a meta page that
/// is the old one, the new one, or one whose checksum shows that it was torn.
pub open spec fn crash_leaves(file: Seq<u8>, writes: Seq<Change>, left: Seq<u8>) -> bool {
    &&& file.len() <= left.len()
    &&& forall|j: int|
        #![trigger page_at(left, j)]
        has_page(left, j) && !(exists|i: int| 0 <= i < writes.len() && touches(#[trigger] writes[i], j)) ==> page_at(
            left,
            j,
        ) == page_at(extended(file, (j + 1) * PAGE_SIZE), j)
    &&& forall|i: int|
        0 <= i < writes.len() ==> (#[trigger] writes[i] matches Change::Write(id, page) ==> id < META_PAGE_COUNT ==> {
            ||| meta_in(left, id as int) == meta_in(file, id as int)
            ||| meta_in(left, id as int) == meta_in(extended(file, (id + 1) * PAGE_SIZE), id as int)
            ||| meta_in(left, id as int) == meta_on(page)
            ||| meta_in(left, id as int) is None
        })
}

/// A crash while `changes` are carried out on `file` can leave `left`:
/// everything up to some sync is durable, and of what follows it up to the next
/// one, nothing is known to be.
pub open spec fn may_remain(file: Seq<u8>, changes: Seq<Change>, left: Seq<u8>) -> bool {
    exists|s: int, n: int|
        #![trigger changes.subrange(s, n)]
        {
            &&& 0 <= s <= n <= changes.len()
            &&& s == 0 || changes[s - 1] is Sync
            &&& forall|i: int| s <= i < n ==> !(#[trigger] changes[i] is Sync)
            &&& crash_leaves(replayed(file, changes.take(s)), changes.subrange(s, n), left)
        }
}

/// The meta page beside the latest record is no newer, also after zeros were
/// added to the file.
proof fn lemma_still_latest(file: Seq<u8>, slot: u64, meta: Meta, left: Seq<u8>)
    requires
        is_steady(file),
        recovered(file) == Some((slot, meta)),
        meta_in(left, slot as int) == Some(meta),
        ({
            let full = extended(file, META_PAGE_COUNT * PAGE_SIZE);
            ||| meta_in(left, 1 - slot) == meta_in(file, 1 - slot)
            ||| meta_in(left, 1 - slot) == meta_in(full, 1 - slot)
            ||| meta_in(left, 1 - slot) is None
        }),
    ensures
        recovered(left) == Some((slot, meta)),
{
    let full = extended(file, META_PAGE_COUNT * PAGE_SIZE);
    assert(has_page(file, slot as int));
    assert(page_at(full, 0) =~= page_at(file, 0));
    if slot == 1 {
        assert(full == file);
    }
}

/// Once the pages of a commit are written, the meta pages are those before it,
/// filled up with zeros at most.
proof fn lemma_meta_pages_after(file: Seq<u8>, data: Seq<Change>, start: int, end: int, j: int)
    requires
        META_PAGE_COUNT <= start,
        only_pages(data, start, end),
        0 <= j < META_PAGE_COUNT,
    ensures
        ({
            let middle = replayed(file, data);
            let full = extended(file, META_PAGE_COUNT * PAGE_SIZE);
            &&& meta_in(middle, j) == meta_in(file, j) || meta_in(middle, j) == meta_in(full, j)
            &&& meta_in(extended(middle, (j + 1) * PAGE_SIZE), j) == meta_in(file, j) || meta_in(
                extended(middle, (j + 1) * PAGE_SIZE),
                j,
            ) == meta_in(full, j)
        }),
{
    let middle = replayed(file, data);
    let full = extended(file, META_PAGE_COUNT * PAGE_SIZE);
    let more = extended(middle, (j + 1) * PAGE_SIZE);
    writes_keep_meta_pages(file, data, start, end);
    if middle == file {
        assert(page_at(more, j) =~= page_at(full, j));
        if has_page(file, j) {
            assert(more == file);
        }
    } else {
        assert(page_at(middle, j) =~= page_at(full, j));
        assert(more == middle);
    }
}

/// Whenever a crash comes during a commit, the file that remains is that of a
/// store: the one before the commit or the one after it. A file that zeros would
/// give another record is left out: it ends within its second meta page, and
/// growing it makes that one readable before the commit has replaced it.
#[verifier::rlimit(40)]
pub proof fn a_crash_leaves_the_old_store_or_the_new(file: Seq<u8>, data: Seq<Change>, meta: Meta, left: Seq<u8>)
    requires
        is_commit(file, data, meta),
        is_steady(file),
        may_remain(file, commit_changes(data, (recovered(file)->0).0, meta), left),
    ensures
        is_store_file(left),
        ({
            ||| stored(left) == stored(file) && stored_free_list(left) == stored_free_list(file)
            ||| stored(left) == contents(stored_nodes(replayed(file, data)), meta.root) && stored_free_list(left)
                == chained::<FreeListPage>(replayed(file, data), meta.free_list_head)
        }),
{
    let (slot, old_meta) = recovered(file)->0;
    let changes = commit_changes(data, slot, meta);
    let (s, n) = choose|s: int, n: int|
        #![trigger changes.subrange(s, n)]
        {
            &&& 0 <= s <= n <= changes.len()
            &&& s == 0 || changes[s - 1] is Sync
            &&& forall|i: int| s <= i < n ==> !(#[trigger] changes[i] is Sync)
            &&& crash_leaves(replayed(file, changes.take(s)), changes.subrange(s, n), left)
        };
    let k = data.len() as int;
    let start = old_meta.next_page as int;
    let end = meta.next_page as int;
    let middle = replayed(file, data);
    let synced = replayed(file, changes.take(s));
    let writes = changes.subrange(s, n);
    assert(changes[k] == Change::Sync && changes[k + 2] == Change::Sync);
    assert(changes[k + 1] == Change::Write((1 - slot) as u64, page_for::<Meta>(meta)));
    writes_leave_other_pages(file, data, start, end);
    lemma_commit_replayed(file, data, slot, meta);
    if s == 0 {
        assert(changes.take(0) =~= Seq::<Change>::empty());
        assert(n <= k) by {
            if n > k {
                assert(!(changes[k] is Sync));
            }
        }
        assert(writes =~= data.subrange(0, n));
        lemma_crash_before_the_record(file, data, n, meta, left);
    } else if s <= k {
        assert(changes[s - 1] == data[s - 1]);
    } else if s == k + 1 {
        assert(changes.take(s) =~= data.push(Change::Sync));
        assert(synced == middle);
        assert(n <= k + 2) by {
            if n > k + 2 {
                assert(!(changes[k + 2] is Sync));
            }
        }
        assert forall|i: int| 0 <= i < writes.len() implies #[trigger] writes[i] == changes[k + 1] by {}
        lemma_crash_at_the_record(file, data, meta, writes, left);
    } else if s == k + 2 {
        assert(changes[s - 1] is Write);
    } else {
        assert(changes.take(s) =~= changes);
        lemma_crash_after_the_record(file, data, meta, writes, left);
    }
}

/// A crash before the record of a commit is written leaves the store before it.
proof fn lemma_crash_before_the_record(file: Seq<u8>, data: Seq<Change>, n: int, meta: Meta, left: Seq<u8>)
    requires
        is_commit(file, data, meta),
        is_steady(file),
        0 <= n <= data.len(),
        crash_leaves(file, data.subrange(0, n), left),
    ensures
        is_store_file(left),
        stored(left) == stored(file),
        stored_free_list(left) == stored_free_list(file),
{
    let (slot, old_meta) = recovered(file)->0;
    let start = old_meta.next_page as int;
    let end = meta.next_page as int;
    let writes = data.subrange(0, n);
    assert forall|j: int| #![trigger page_at(left, j)] has_page(left, j) && !(start <= j < end) implies page_at(left, j)
        == page_at(extended(file, (j + 1) * PAGE_SIZE), j) by {
        assert forall|i: int| 0 <= i < writes.len() implies !touches(#[trigger] writes[i], j) by {
            assert(writes[i] == data[i]);
        }
    }
    assert(agree_outside(file, left, start, end)) by {
        assert forall|j: int| #![trigger page_at(left, j)] has_page(file, j) && !(start <= j < end) implies page_at(
            left,
            j,
        ) == page_at(file, j) by {
            assert(has_page(left, j));
        }
    }
    lemma_record_kept(file, left, slot, old_meta, start, end);
    let full = extended(file, META_PAGE_COUNT * PAGE_SIZE);
    if has_page(left, 1 - slot) {
        let other = extended(file, (1 - slot + 1) * PAGE_SIZE);
        assert(page_at(left, 1 - slot) == page_at(other, 1 - slot));
        if slot == 0 {
            assert(other == full);
        } else {
            assert(other == file);
        }
    }
    lemma_still_latest(file, slot, old_meta, left);
    commits_are_kept(file, left, old_meta, start, end);
}

/// A crash while the record of a commit is written leaves the store before it or
/// the one after it.
#[verifier::rlimit(40)]
proof fn lemma_crash_at_the_record(
    file: Seq<u8>,
    data: Seq<Change>,
    meta: Meta,
    writes: Seq<Change>,
    left: Seq<u8>,
)
    requires
        is_commit(file, data, meta),
        is_steady(file),
        writes.len() <= 1,
        forall|i: int|
            0 <= i < writes.len() ==> #[trigger] writes[i] == Change::Write(
                (1 - (recovered(file)->0).0) as u64,
                page_for::<Meta>(meta),
            ),
        crash_leaves(replayed(file, data), writes, left),
    ensures
        is_store_file(left),
        ({
            ||| stored(left) == stored(file) && stored_free_list(left) == stored_free_list(file)
            ||| stored(left) == contents(stored_nodes(replayed(file, data)), meta.root) && stored_free_list(left)
                == chained::<FreeListPage>(replayed(file, data), meta.free_list_head)
        }),
{
    let (slot, old_meta) = recovered(file)->0;
    let start = old_meta.next_page as int;
    let end = meta.next_page as int;
    let middle = replayed(file, data);
    writes_leave_other_pages(file, data, start, end);
    lemma_record_kept(file, middle, slot, old_meta, start, end);
    commits_are_kept(file, middle, old_meta, start, end);
    assert(agree_outside(middle, left, 1 - slot, 2 - slot)) by {
        assert forall|j: int|
            #![trigger page_at(left, j)]
            has_page(middle, j) && !(1 - slot <= j < 2 - slot) implies page_at(left, j) == page_at(middle, j) by {
            assert(has_page(left, j));
            assert forall|i: int| 0 <= i < writes.len() implies !touches(#[trigger] writes[i], j) by {}
        }
    }
    lemma_record_kept(middle, left, slot, old_meta, 1 - slot, 2 - slot);
    commits_are_kept(middle, left, old_meta, 1 - slot, 2 - slot);
    commits_are_kept(middle, left, meta, 1 - slot, 2 - slot);
    lemma_meta_fits(meta);
    lemma_integers();
    reading_gives_back_what_was_written::<Meta>(meta);
    lemma_meta_pages_after(file, data, start, end, 1 - slot);
    let other = meta_in(left, 1 - slot);
    let full = extended(file, META_PAGE_COUNT * PAGE_SIZE);
    assert(other == Some(meta) || other == meta_in(file, 1 - slot) || other == meta_in(full, 1 - slot)
        || other is None) by {
        if writes.len() > 0 {
            assert(writes[0] == Change::Write((1 - slot) as u64, page_for::<Meta>(meta)));
        } else if has_page(left, 1 - slot) {
            assert forall|i: int| 0 <= i < writes.len() implies !touches(#[trigger] writes[i], 1 - slot) by {}
            assert(page_at(left, 1 - slot) == page_at(extended(middle, (1 - slot + 1) * PAGE_SIZE), 1 - slot));
        }
    }
    if other == Some(meta) {
        assert(recovered(left) == Some(((1 - slot) as u64, meta)));
    } else {
        lemma_still_latest(file, slot, old_meta, left);
    }
}

/// A crash after the record of a commit was made durable leaves the store after
/// it.
proof fn lemma_crash_after_the_record(
    file: Seq<u8>,
    data: Seq<Change>,
    meta: Meta,
    writes: Seq<Change>,
    left: Seq<u8>,
)
    requires
        is_commit(file, data, meta),
        writes.len() == 0,
        crash_leaves(replayed(file, commit_changes(data, (recovered(file)->0).0, meta)), writes, left),
    ensures
        is_store_file(left),
        stored(left) == contents(stored_nodes(replayed(file, data)), meta.root),
        stored_free_list(left) == chained::<FreeListPage>(replayed(file, data), meta.free_list_head),
{
    let (slot, old_meta) = recovered(file)->0;
    let after = replayed(file, commit_changes(data, slot, meta));
    let end = meta.next_page as int;
    a_commit_makes_its_store_the_latest(file, data, meta);
    writes_leave_other_pages(file, data, old_meta.next_page as int, end);
    lemma_commit_replayed(file, data, slot, meta);
    assert(has_page(after, 1)) by {
        if slot == 0 {
            assert(meta_in(after, 1) is Some);
        } else {
            assert(has_page(file, 1));
        }
    }
    assert(agree_outside(after, left, end, end)) by {
        assert forall|j: int| #![trigger page_at(left, j)] has_page(after, j) implies page_at(left, j) == page_at(
            after,
            j,
        ) by {
            assert(has_page(left, j));
        }
    }
    lemma_same_latest(after, left, end, end);
    commits_are_kept(after, left, meta, end, end);
}

} // verus!
