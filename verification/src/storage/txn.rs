//! Transactions over an [`Environment`].
//!
//! A [`ReadTxn`] is a snapshot: it remembers a root, and since pages are never
//! changed once they are committed, what it sees stays the same whatever a
//! writer does. There is one [`WriteTxn`] at a time. Its changes are its own
//! until it commits.
//!
//! Every snapshot is registered with the environment while it lasts, so that a
//! write transaction knows how far back anybody still reads.

use std::collections::HashMap;

use vstd::prelude::*;

use super::btree::{
    self, all_sized, bound_of, encode_node, extends, is_no_larger, none_larger, rows_of, stored_nodes,
    visible, Node, Overlay,
};
use super::chain::{chained, is_chain, lemma_chain_is_in_file, lemma_chain_widened};
use super::check::is_sound;
use super::codec::{encoded_len, holds, page_for, reading_gives_back_what_was_written, PageRecord, PAGE_CAPACITY};
use super::freelist::{self, last_chunk_first, pages_for, FreeEntry, FreeListPage};
use super::growth::{
    all_go_into_pages, delete_under, goes_into_a_page, lemma_sized_len, node_size, path_len, put_under, within_budget,
    RECORD_BUDGET,
};
use super::pager::{
    agree_outside, changes_of, first_changes, first_file, first_meta, is_corrupt, is_steady, lemma_meta_fits,
    lemma_replay_concat, lemma_replay_push, lemma_wrote_more, lemma_wrote_nothing, lemma_wrote_page,
    lemma_wrote_widened, page_at, recovered, replacing_a_page_leaves_the_others, replayed, with_page,
    writes_leave_other_pages, wrote, Change, FileOp, Meta, PageId, Pager, META_PAGE_COUNT, PAGE_SIZE,
};
use super::store::{
    a_commit_makes_its_store_the_latest, a_crash_leaves_the_old_store_or_the_new, a_new_store_is_empty,
    commit_changes, commits_are_kept, is_commit, is_committed, is_store_file, latest, lemma_commit_replayed,
    lemma_meta_written, lemma_nodes_kept, lemma_record_kept, lemma_same_latest, may_remain, snapshots_are_kept,
    snapshots_ignore_meta_pages, stored,
};
use super::tree::{
    contents, contents_are_kept, entry_fits, height, is_even, is_store, lemma_store_widened, lists, page_ids, sized,
    Nodes,
};
use super::wire::lemma_integers;
use crate::error::{CicsError, Result};

verus! {

broadcast use vstd::std_specs::hash::group_hash_axioms;

/// A store that transactions can be run on.
pub struct Environment {
    pager: Pager,
    committed: Meta,
    writing: bool,
    /// The snapshots that are being read, each by the id of the transaction
    /// that it shows.
    readers: Vec<u64>,
}

impl Environment {
    /// The store's file.
    pub closed spec fn pager(&self) -> Pager {
        self.pager
    }

    /// The record of the latest commit.
    pub closed spec fn meta(&self) -> Meta {
        self.committed
    }

    /// A write transaction is under way.
    pub closed spec fn writing(&self) -> bool {
        self.writing
    }

    /// The snapshots that are being read.
    pub closed spec fn readers(&self) -> Seq<u64> {
        self.readers@
    }

    /// The bytes of the store's file.
    pub open spec fn file(&self) -> Seq<u8> {
        self.pager().file()
    }

    /// What the latest commit left.
    pub open spec fn contents(&self) -> Map<Seq<u8>, Seq<u8>> {
        contents(stored_nodes(self.file()), self.meta().root)
    }

    /// The file is that of a store, and so it is with the meta pages that the
    /// real file last confirmed.
    pub open spec fn wf(&self) -> bool {
        &&& self.pager().wf()
        &&& recovered(self.file()) == Some((self.pager().slot(), self.meta()))
        &&& is_committed(self.file(), self.meta())
        &&& is_store_file(self.pager().confirmed())
        &&& latest(self.pager().confirmed()).next_page <= self.meta().next_page
    }

    /// Everything but the snapshots being read is the same.
    pub open spec fn same_store(&self, other: Environment) -> bool {
        &&& self.pager() == other.pager()
        &&& self.meta() == other.meta()
        &&& self.writing() == other.writing()
    }

    /// Opens a store from the bytes of its file, or a new store where there is
    /// no file. Nothing of a file that there is is changed.
    pub fn open(image: Option<Vec<u8>>) -> (r: Result<Environment>)
        ensures
            match image {
                None => {
                    &&& r matches Ok(env)
                    &&& env.wf()
                    &&& env.meta() == first_meta()
                    &&& env.file() == first_file()
                    &&& env.pager().confirmed() == first_file()
                    &&& env.contents() == Map::<Seq<u8>, Seq<u8>>::empty()
                    &&& env.pager().outbox() == first_changes()
                    &&& !env.writing()
                    &&& env.readers() == Seq::<u64>::empty()
                },
                Some(bytes) => match recovered(bytes@) {
                    Some((slot, meta)) => {
                        &&& r matches Ok(env)
                        &&& env.wf() <==> is_store_file(bytes@)
                        &&& env.meta() == meta
                        &&& env.file() == bytes@
                        &&& env.pager().confirmed() == bytes@
                        &&& env.contents() == stored(bytes@)
                        &&& env.pager().outbox() == Seq::<Change>::empty()
                        &&& !env.writing()
                        &&& env.readers() == Seq::<u64>::empty()
                    },
                    None => r matches Err(e) && is_corrupt(e),
                },
            },
    {
        proof {
            a_new_store_is_empty();
        }
        match Pager::open(image) {
            Ok((pager, committed)) => Ok(Environment { pager, committed, writing: false, readers: Vec::new() }),
            Err(e) => Err(e),
        }
    }

    /// As `open`, where it is not known whether the bytes are those of a store's
    /// file: everything that the latest commit refers to is looked at, and a file
    /// that is not in order is refused.
    pub fn open_checked(image: Option<Vec<u8>>) -> (r: Result<Environment>)
        ensures
            match image {
                None => {
                    &&& r matches Ok(env)
                    &&& env.wf()
                    &&& env.meta() == first_meta()
                    &&& env.file() == first_file()
                    &&& env.pager().confirmed() == first_file()
                    &&& env.contents() == Map::<Seq<u8>, Seq<u8>>::empty()
                    &&& env.pager().outbox() == first_changes()
                    &&& !env.writing()
                    &&& env.readers() == Seq::<u64>::empty()
                },
                Some(bytes) => if recovered(bytes@) is None {
                    r matches Err(e) && is_corrupt(e)
                } else if is_store_file(bytes@) {
                    &&& r matches Ok(env)
                    &&& env.wf()
                    &&& env.meta() == latest(bytes@)
                    &&& env.file() == bytes@
                    &&& env.pager().confirmed() == bytes@
                    &&& env.contents() == stored(bytes@)
                    &&& env.pager().outbox() == Seq::<Change>::empty()
                    &&& !env.writing()
                    &&& env.readers() == Seq::<u64>::empty()
                } else {
                    r matches Err(e) && is_unsound(e)
                },
            },
    {
        let sound = match &image {
            Some(bytes) => is_sound(bytes),
            None => true,
        };
        let env = Environment::open(image)?;
        if !sound {
            return Err(CicsError::Io("the store file is corrupt".to_owned()));
        }
        Ok(env)
    }

    /// Begins to read the latest commit.
    pub fn begin_read(&mut self) -> (r: ReadTxn)
        ensures
            final(self).same_store(*old(self)),
            final(self).readers() == old(self).readers().push(old(self).meta().txn_id),
            r.root() == old(self).meta().root,
            r.txn_id() == old(self).meta().txn_id,
            old(self).wf() ==> final(self).wf() && r.reads(*final(self)) && r.contents(*final(self)) == old(
                self,
            ).contents(),
    {
        self.readers.push(self.committed.txn_id);
        ReadTxn { root: self.committed.root, txn_id: self.committed.txn_id }
    }

    /// The id of the oldest snapshot that is being read.
    fn oldest_reader_txn_id(&self) -> (r: Option<u64>)
        ensures
            r == oldest(self.readers()),
    {
        let mut r: Option<u64> = None;
        let mut i: usize = 0;
        assert(self.readers@.take(0) =~= Seq::<u64>::empty());
        while i < self.readers.len()
            invariant
                i <= self.readers@.len(),
                r == oldest(self.readers@.take(i as int)),
            decreases self.readers@.len() - i,
        {
            let id: u64 = self.readers[i];
            assert(self.readers@.take(i + 1).drop_last() =~= self.readers@.take(i as int));
            r = match r {
                Some(other) => if id < other {
                    Some(id)
                } else {
                    Some(other)
                },
                None => Some(id),
            };
            i += 1;
        }
        assert(self.readers@.take(i as int) =~= self.readers@);
        r
    }

    /// Begins to write. Whoever shares the environment waits until the writer
    /// before is done.
    pub fn begin_write(&mut self) -> (r: WriteTxn)
        requires
            old(self).wf(),
            !old(self).writing(),
        ensures
            final(self).wf(),
            final(self).writing(),
            final(self).pager() == old(self).pager(),
            final(self).meta() == old(self).meta(),
            final(self).readers() == old(self).readers(),
            r.wf(*final(self)),
            r.contents(*final(self)) == old(self).contents(),
            r.is_fresh(*final(self)),
    {
        self.writing = true;
        let meta = self.committed;
        let reclaim_watermark: u64 = match self.oldest_reader_txn_id() {
            Some(id) => id,
            None => u64::MAX,
        };
        proof {
            lemma_chain_is_in_file::<FreeListPage>(
                self.file(),
                meta.free_list_head,
                META_PAGE_COUNT as int,
                meta.next_page as int,
            );
        }
        let free_list = freelist::load(&self.pager, meta.free_list_head);
        let overlay: Overlay = HashMap::new();
        proof {
            lemma_no_overlay(self.pager, overlay);
        }
        let r = WriteTxn {
            base_txn_id: meta.txn_id,
            root: meta.root,
            next_page: meta.next_page,
            overlay,
            free_list,
            obsolete: Vec::new(),
            scratch_pool: Vec::new(),
            reclaim_watermark,
        };
        assert(r.retired() =~= Seq::<PageId>::empty());
        assert(r.nodes(*self) =~= stored_nodes(self.file()));
        r
    }

    /// The changes that the real file has not confirmed, in order.
    pub fn pending(&self) -> (r: &Vec<FileOp>)
        ensures
            changes_of(r@) == self.pager().outbox(),
    {
        self.pager.pending()
    }

    /// Every pending change was carried out on the real file.
    pub fn confirm(&mut self)
        requires
            old(self).wf(),
        ensures
            final(self).wf(),
            final(self).file() == old(self).file(),
            final(self).pager().slot() == old(self).pager().slot(),
            final(self).pager().confirmed() == old(self).file(),
            final(self).pager().outbox() == Seq::<Change>::empty(),
            final(self).meta() == old(self).meta(),
            final(self).writing() == old(self).writing(),
            final(self).readers() == old(self).readers(),
    {
        self.pager.confirm();
    }

    /// The pending changes could not all be carried out: goes back to the last
    /// commit that the real file confirmed.
    pub fn revert(&mut self)
        requires
            old(self).wf(),
            !old(self).writing(),
        ensures
            final(self).wf(),
            final(self).file() == old(self).pager().confirmed(),
            final(self).pager().confirmed() == old(self).pager().confirmed(),
            final(self).pager().outbox() == Seq::<Change>::empty(),
            final(self).meta() == latest(old(self).pager().confirmed()),
            final(self).contents() == stored(old(self).pager().confirmed()),
            !final(self).writing(),
            final(self).readers() == old(self).readers(),
    {
        self.committed = self.pager.revert();
    }
}

/// The error says that a file is not that of a store.
pub open spec fn is_unsound(e: CicsError) -> bool {
    e matches CicsError::Io(message) && message@ == "the store file is corrupt"@
}

/// The smallest of some ids, if there are any.
pub open spec fn oldest(ids: Seq<u64>) -> Option<u64>
    decreases ids.len(),
{
    if ids.len() == 0 {
        None
    } else {
        match oldest(ids.drop_last()) {
            Some(id) => if ids.last() < id {
                Some(ids.last())
            } else {
                Some(id)
            },
            None => Some(ids.last()),
        }
    }
}

/// How far back anybody reads: the oldest snapshot, or no limit where there is
/// none.
pub open spec fn watermark_of(readers: Seq<u64>) -> u64 {
    match oldest(readers) {
        Some(id) => id,
        None => u64::MAX,
    }
}

/// No snapshot that is being read is older than the watermark, and if there is
/// any, one is as old.
pub proof fn nobody_reads_from_before_the_watermark(readers: Seq<u64>)
    ensures
        forall|i: int| 0 <= i < readers.len() ==> watermark_of(readers) <= #[trigger] readers[i],
        readers.len() > 0 ==> readers.contains(watermark_of(readers)),
{
    if readers.len() > 0 {
        the_oldest_comes_first(readers);
    }
}

/// The smallest of some ids is one of them, and none is smaller.
pub proof fn the_oldest_comes_first(ids: Seq<u64>)
    requires
        ids.len() > 0,
    ensures
        oldest(ids) is Some,
        ids.contains(oldest(ids)->0),
        forall|i: int| 0 <= i < ids.len() ==> oldest(ids)->0 <= #[trigger] ids[i],
    decreases ids.len(),
{
    let fewer = ids.drop_last();
    assert(ids[ids.len() - 1] == ids.last());
    if fewer.len() > 0 {
        the_oldest_comes_first(fewer);
        let i = choose|i: int| 0 <= i < fewer.len() && fewer[i] == oldest(fewer)->0;
        assert(ids[i] == fewer[i]);
        assert forall|j: int| 0 <= j < ids.len() implies oldest(ids)->0 <= #[trigger] ids[j] by {
            if j < fewer.len() {
                assert(fewer[j] == ids[j]);
            }
        }
    }
}

/// Without an overlay, what is seen is what is stored.
proof fn lemma_no_overlay(pager: Pager, overlay: Overlay)
    requires
        overlay@ == Map::<PageId, Node>::empty(),
    ensures
        visible(pager, overlay) == stored_nodes(pager.file()),
{
    assert(visible(pager, overlay) =~= stored_nodes(pager.file()));
}

/// A snapshot that is being read.
pub struct ReadTxn {
    root: Option<PageId>,
    txn_id: u64,
}

impl ReadTxn {
    /// The root of the snapshot's tree.
    pub closed spec fn root(&self) -> Option<PageId> {
        self.root
    }

    /// The id of the transaction that the snapshot shows.
    pub closed spec fn txn_id(&self) -> u64 {
        self.txn_id
    }

    /// The snapshot can be read from this environment.
    pub open spec fn reads(&self, env: Environment) -> bool {
        is_snapshot(env, self.root())
    }

    /// What the snapshot shows.
    pub open spec fn contents(&self, env: Environment) -> Map<Seq<u8>, Seq<u8>> {
        contents(stored_nodes(env.file()), self.root())
    }

    /// The value under `key`.
    pub fn get(&self, env: &Environment, key: &[u8]) -> (r: Option<Vec<u8>>)
        requires
            self.reads(*env),
        ensures
            r is Some <==> self.contents(*env).contains_key(key@),
            r matches Some(value) ==> value@ == self.contents(*env)[key@],
    {
        let overlay: Overlay = HashMap::new();
        proof {
            lemma_no_overlay(env.pager, overlay);
            lemma_store_widened(stored_nodes(env.file()), self.root, env.committed.next_page as int, page_ids());
        }
        btree::get(&env.pager, &overlay, self.root, key)
    }

    /// The entries from `start` to before `end`, in key order.
    pub fn range(&self, env: &Environment, start: Option<&[u8]>, end: Option<&[u8]>) -> (r: Vec<(Vec<u8>, Vec<u8>)>)
        requires
            self.reads(*env),
        ensures
            lists(rows_of(r@), self.contents(*env), bound_of(start), bound_of(end)),
    {
        let overlay: Overlay = HashMap::new();
        proof {
            lemma_no_overlay(env.pager, overlay);
            lemma_store_widened(stored_nodes(env.file()), self.root, env.committed.next_page as int, page_ids());
        }
        btree::range(&env.pager, &overlay, self.root, start, end)
    }

    /// Ends the snapshot: it is no longer registered with the environment.
    pub fn end(self, env: &mut Environment)
        ensures
            final(env).same_store(*old(env)),
            final(env).readers().to_multiset() == old(env).readers().to_multiset().remove(self.txn_id()),
            old(env).wf() ==> final(env).wf(),
    {
        let mut i: usize = 0;
        while i < env.readers.len()
            invariant
                *env == *old(env),
                i <= env.readers@.len(),
                forall|j: int| 0 <= j < i ==> env.readers@[j] != self.txn_id,
            decreases env.readers@.len() - i,
        {
            if env.readers[i] == self.txn_id {
                let ghost before = env.readers@;
                env.readers.swap_remove(i);
                proof {
                    lemma_swapped_out(before, env.readers@, i as int);
                }
                return;
            }
            i += 1;
        }
        proof {
            let m = env.readers@.to_multiset();
            assert(!env.readers@.contains(self.txn_id));
            env.readers@.to_multiset_ensures();
            assert(m.remove(self.txn_id) =~= m);
        }
    }
}

/// The tree under `root` is in the store, on pages that no later commit writes.
pub open spec fn is_snapshot(env: Environment, root: Option<PageId>) -> bool {
    is_store(stored_nodes(env.file()), root, env.meta().next_page as int)
}

proof fn lemma_swapped_out(before: Seq<u64>, after: Seq<u64>, i: int)
    requires
        0 <= i < before.len(),
        after == before.update(i, before.last()).drop_last(),
    ensures
        after.to_multiset() == before.to_multiset().remove(before[i]),
{
    let last = before.last();
    let n = before.len() - 1;
    let fewer = before.remove(n);
    vstd::seq_lib::to_multiset_remove(before, n);
    before.to_multiset_ensures();
    if i == n {
        assert(after =~= fewer);
    } else {
        vstd::seq_lib::to_multiset_remove(fewer, i);
        vstd::seq_lib::to_multiset_insert(fewer.remove(i), i, last);
        assert(after =~= fewer.remove(i).insert(i, last));
        fewer.to_multiset_ensures();
        assert(fewer[i] == before[i]);
        assert(fewer.contains(before[i]));
        assert(before[n] == last);
        assert(before.contains(last));
        assert(after.to_multiset() =~= before.to_multiset().remove(before[i]));
    }
}

/// The one transaction that writes. Nobody else sees its changes before it
/// commits.
pub struct WriteTxn {
    base_txn_id: u64,
    root: Option<PageId>,
    next_page: PageId,
    overlay: Overlay,
    free_list: Vec<FreeEntry>,
    /// Pages that this transaction left unreachable.
    obsolete: Vec<PageId>,
    /// Pages that this transaction took and does not use. They are never stored
    /// as such.
    scratch_pool: Vec<PageId>,
    reclaim_watermark: u64,
}

impl WriteTxn {
    /// The id of the commit that this transaction began from.
    pub closed spec fn base(&self) -> u64 {
        self.base_txn_id
    }

    /// The root of the tree that this transaction sees.
    pub closed spec fn root(&self) -> Option<PageId> {
        self.root
    }

    /// The next page that this transaction will take.
    pub closed spec fn next_page(&self) -> PageId {
        self.next_page
    }

    /// The nodes that this transaction has produced.
    pub closed spec fn overlay(&self) -> Overlay {
        self.overlay
    }

    /// The free list that this transaction began with.
    pub closed spec fn free_list(&self) -> Seq<FreeEntry> {
        self.free_list@
    }

    /// The pages that this transaction left behind.
    pub closed spec fn retired(&self) -> Seq<PageId> {
        self.obsolete@ + self.scratch_pool@
    }

    /// Pages that were left behind before this transaction's id are not seen by
    /// any snapshot that was being read when this one began.
    pub closed spec fn watermark(&self) -> u64 {
        self.reclaim_watermark
    }

    /// The nodes that this transaction sees.
    pub open spec fn nodes(&self, env: Environment) -> Nodes {
        visible(env.pager(), self.overlay())
    }

    /// What this transaction sees.
    pub open spec fn contents(&self, env: Environment) -> Map<Seq<u8>, Seq<u8>> {
        contents(self.nodes(env), self.root())
    }

    /// This is the transaction that writes to the environment. Every page that
    /// it took holds a node, and no other page is touched.
    pub open spec fn wf(&self, env: Environment) -> bool {
        &&& env.wf()
        &&& env.writing()
        &&& self.base() == env.meta().txn_id
        &&& env.meta().next_page <= self.next_page()
        &&& is_store(self.nodes(env), self.root(), self.next_page() as int)
        &&& forall|id: PageId| #[trigger]
            self.overlay()@.contains_key(id) <==> env.meta().next_page <= id < self.next_page()
        &&& all_sized(self.nodes(env), env.meta().next_page, self.next_page())
    }

    /// The transaction has not changed anything yet: it sees the latest commit.
    pub open spec fn is_fresh(&self, env: Environment) -> bool {
        &&& self.base() == env.meta().txn_id
        &&& self.root() == env.meta().root
        &&& self.next_page() == env.meta().next_page
        &&& self.nodes(env) == stored_nodes(env.file())
        &&& self.free_list() == chained::<FreeListPage>(env.file(), env.meta().free_list_head)
        &&& self.retired() == Seq::<PageId>::empty()
        &&& self.watermark() == watermark_of(env.readers())
    }

    /// How many nodes stand above each other in the tree that this transaction
    /// sees.
    pub open spec fn height(&self, env: Environment) -> nat {
        height(self.nodes(env), self.root())
    }

    /// All leaves of the tree that this transaction sees are equally deep.
    pub open spec fn is_even(&self, env: Environment) -> bool {
        is_even(self.nodes(env), self.root())
    }

    /// How many nodes stand above each other where `key` belongs.
    pub open spec fn path_len(&self, env: Environment, key: Seq<u8>) -> nat {
        path_len(self.nodes(env), self.root(), key)
    }

    /// There are page ids left for what a put of `key` may take.
    pub open spec fn room_to_put(&self, env: Environment, key: Seq<u8>) -> bool {
        self.next_page() + 3 * self.path_len(env, key) + 3 <= u64::MAX
    }

    /// There are page ids left for what a delete of `key` takes.
    pub open spec fn room_to_delete(&self, env: Environment, key: Seq<u8>) -> bool {
        self.next_page() + self.path_len(env, key) <= u64::MAX
    }

    /// Nothing but the tree and its pages differs.
    pub open spec fn same_books(&self, other: WriteTxn) -> bool {
        &&& self.base() == other.base()
        &&& self.free_list() == other.free_list()
        &&& self.retired() == other.retired()
        &&& self.watermark() == other.watermark()
    }

    /// The free list that this transaction's commit stores: the one that it
    /// began with, and the pages that it left behind under the new commit's id.
    pub open spec fn free_list_after(&self) -> Seq<FreeEntry> {
        self.free_list() + self.retired().map_values(|id: PageId| ((self.base() + 1) as u64, id))
    }

    /// The page after the last one that this transaction's commit writes.
    pub open spec fn end_page(&self) -> int {
        self.next_page() + pages_for((self.free_list().len() + self.retired().len()) as int)
    }

    /// Every node that this transaction has produced fits in a page.
    pub open spec fn nodes_fit(&self, env: Environment) -> bool {
        forall|id: PageId|
            env.meta().next_page <= id < self.next_page() ==> goes_into_a_page(#[trigger] self.nodes(env)[id])
    }

    /// Every node that this transaction has produced fits in a page, and the
    /// store has room for them and for another commit.
    pub open spec fn can_be_stored(&self, env: Environment) -> bool {
        &&& self.nodes_fit(env)
        &&& self.end_page() * PAGE_SIZE <= usize::MAX
        &&& self.base() < u64::MAX
    }

    /// Every node that this transaction produced over `before` is on its page in
    /// `after`.
    pub open spec fn is_stored(&self, before: Environment, after: Environment) -> bool {
        forall|id: PageId|
            before.meta().next_page <= id < self.next_page() ==> #[trigger] stored_nodes(after.file()).contains_key(id)
                && stored_nodes(after.file())[id] == self.nodes(before)[id]
    }

    /// The value under `key`.
    pub fn get(&self, env: &Environment, key: &[u8]) -> (r: Option<Vec<u8>>)
        requires
            self.wf(*env),
        ensures
            r is Some <==> self.contents(*env).contains_key(key@),
            r matches Some(value) ==> value@ == self.contents(*env)[key@],
    {
        proof {
            lemma_store_widened(self.nodes(*env), self.root, self.next_page as int, page_ids());
        }
        btree::get(&env.pager, &self.overlay, self.root, key)
    }

    /// The entries from `start` to before `end`, in key order.
    pub fn range(&self, env: &Environment, start: Option<&[u8]>, end: Option<&[u8]>) -> (r: Vec<(Vec<u8>, Vec<u8>)>)
        requires
            self.wf(*env),
        ensures
            lists(rows_of(r@), self.contents(*env), bound_of(start), bound_of(end)),
    {
        proof {
            lemma_store_widened(self.nodes(*env), self.root, self.next_page as int, page_ids());
        }
        btree::range(&env.pager, &self.overlay, self.root, start, end)
    }

    /// Whether there are page ids left to put something under `key`.
    pub fn has_room(&self, env: &Environment, key: &[u8]) -> (r: bool)
        requires
            self.wf(*env),
        ensures
            r == self.room_to_put(*env, key@),
    {
        proof {
            lemma_store_widened(self.nodes(*env), self.root, self.next_page as int, page_ids());
        }
        let room: u64 = u64::MAX - self.next_page;
        if room < 3 {
            return false;
        }
        btree::path_len_up_to(&env.pager, &self.overlay, self.root, key, (room - 3) / 3).is_some()
    }

    /// Whether there are page ids left to delete what is stored under `key`.
    pub fn has_room_to_delete(&self, env: &Environment, key: &[u8]) -> (r: bool)
        requires
            self.wf(*env),
        ensures
            r == self.room_to_delete(*env, key@),
    {
        proof {
            lemma_store_widened(self.nodes(*env), self.root, self.next_page as int, page_ids());
        }
        btree::path_len_up_to(&env.pager, &self.overlay, self.root, key, u64::MAX - self.next_page).is_some()
    }

    /// Stores `value` under `key`. As long as everything stored is within the
    /// budget, no node outgrows its page by that.
    pub fn put(&mut self, env: &Environment, key: &[u8], value: &[u8])
        requires
            old(self).wf(*env),
            old(self).room_to_put(*env, key@),
            entry_fits(key@, value@),
        ensures
            final(self).wf(*env),
            final(self).contents(*env) == old(self).contents(*env).insert(key@, value@),
            final(self).same_books(*old(self)),
            ({
                let g = put_under(old(self).nodes(*env), old(self).root(), key@, value@, old(self).next_page());
                &&& final(self).nodes(*env) == g.nodes
                &&& final(self).next_page() == g.next
                &&& final(self).root() == Some(g.ids[0])
            }),
            old(self).next_page() < final(self).next_page(),
            final(self).next_page() <= old(self).next_page() + 3 * old(self).path_len(*env, key@) + 3,
            final(self).height(*env) <= old(self).height(*env) + 2,
            old(self).is_even(*env) ==> final(self).is_even(*env),
            old(self).nodes_fit(*env) && within_budget(old(self).contents(*env)) && key@.len() + value@.len()
                <= RECORD_BUDGET ==> final(self).nodes_fit(*env) && within_budget(final(self).contents(*env)),
    {
        let root = self.root;
        let new_root: PageId = btree::put(&env.pager, &mut self.overlay, &mut self.next_page, root, key, value);
        self.root = Some(new_root);
        proof {
            assert(seq![new_root][0] == new_root);
            lemma_still_sized(*old(self), *self, *env);
            if old(self).nodes_fit(*env) {
                lemma_all_fit(*old(self), *env);
                if all_go_into_pages(self.nodes(*env)) {
                    lemma_new_nodes_fit(*self, *env);
                }
            }
        }
    }

    /// Removes what is stored under `key`. Returns whether there was anything. No
    /// node outgrows its page by that.
    pub fn delete(&mut self, env: &Environment, key: &[u8]) -> (r: bool)
        requires
            old(self).wf(*env),
            old(self).room_to_delete(*env, key@),
        ensures
            final(self).wf(*env),
            r == old(self).contents(*env).contains_key(key@),
            final(self).contents(*env) == old(self).contents(*env).remove(key@),
            final(self).same_books(*old(self)),
            ({
                let g = delete_under(old(self).nodes(*env), old(self).root(), key@, old(self).next_page());
                &&& final(self).nodes(*env) == g.nodes
                &&& final(self).next_page() == g.next
                &&& final(self).root() == (if g.ids.len() == 0 {
                    None
                } else {
                    Some(g.ids[0])
                })
            }),
            final(self).root() is None <==> final(self).contents(*env).is_empty(),
            final(self).next_page() == old(self).next_page() + old(self).path_len(*env, key@),
            final(self).height(*env) <= old(self).height(*env),
            old(self).is_even(*env) ==> final(self).is_even(*env),
            old(self).nodes_fit(*env) ==> final(self).nodes_fit(*env),
            within_budget(old(self).contents(*env)) ==> within_budget(final(self).contents(*env)),
    {
        let root = self.root;
        let (new_root, existed) = btree::delete(&env.pager, &mut self.overlay, &mut self.next_page, root, key);
        self.root = new_root;
        proof {
            lemma_still_sized(*old(self), *self, *env);
            if old(self).nodes_fit(*env) {
                lemma_still_fit(*old(self), *self, *env);
            }
        }
        existed
    }

    /// Whether the transaction can be committed.
    pub fn fits(&self, env: &Environment) -> (r: bool)
        requires
            self.wf(*env),
        ensures
            r == self.can_be_stored(*env),
    {
        if self.base_txn_id == u64::MAX {
            return false;
        }
        let entries: u128 = self.free_list.len() as u128 + self.obsolete.len() as u128 + self.scratch_pool.len() as u128;
        let end: u128 = self.next_page as u128 + (entries + freelist::CHUNK as u128 - 1) / (freelist::CHUNK as u128);
        assert(end == self.end_page());
        if end * (PAGE_SIZE as u128) > usize::MAX as u128 {
            return false;
        }
        let mut id: PageId = env.committed.next_page;
        while id < self.next_page
            invariant
                self.wf(*env),
                env.committed.next_page <= id <= self.next_page,
                forall|other: PageId|
                    env.committed.next_page <= other < id ==> Node::body(#[trigger] self.nodes(*env)[other]).len()
                        <= PAGE_CAPACITY,
            decreases self.next_page - id,
        {
            assert(self.overlay()@.contains_key(id));
            let node = self.overlay.get(&id).unwrap();
            assert(self.nodes(*env)[id] == node@);
            proof {
                lemma_sized_len(node@);
            }
            if encoded_len(node) > PAGE_SIZE {
                return false;
            }
            id += 1;
        }
        true
    }

    /// Ends the transaction and makes its changes the latest commit: its pages
    /// are written and made durable, and then its record.
    #[verifier::rlimit(40)]
    pub fn commit(self, env: &mut Environment) -> (r: Result<()>)
        requires
            self.wf(*old(env)),
            self.can_be_stored(*old(env)),
        ensures
            r is Ok,
            final(env).wf(),
            !final(env).writing(),
            final(env).readers() == old(env).readers(),
            final(env).contents() == self.contents(*old(env)),
            height(stored_nodes(final(env).file()), final(env).meta().root) == self.height(*old(env)),
            is_even(stored_nodes(final(env).file()), final(env).meta().root) == self.is_even(*old(env)),
            final(env).meta().txn_id == old(env).meta().txn_id + 1,
            final(env).meta().root == self.root(),
            final(env).meta().next_page == self.end_page(),
            chained::<FreeListPage>(final(env).file(), final(env).meta().free_list_head) == last_chunk_first(
                self.free_list_after(),
            ),
            final(env).meta().free_list_head == (if self.free_list_after().len() == 0 {
                None
            } else {
                Some((self.end_page() - 1) as PageId)
            }),
            is_committed_over(*old(env), *final(env)),
            self.is_stored(*old(env), *final(env)),
            stored(final(env).pager().confirmed()) == stored(old(env).pager().confirmed()),
    {
        let ghost txn = self;
        let WriteTxn { base_txn_id, root, mut next_page, overlay, mut free_list, mut obsolete, mut scratch_pool, .. } =
            self;
        let base = env.committed;
        proof {
            assert forall|id: PageId| base.next_page <= id < next_page implies Node::body(
                (#[trigger] overlay@[id])@,
            ).len() <= PAGE_CAPACITY by {
                assert(txn.overlay()@.contains_key(id));
                assert(txn.nodes(*env)[id] == overlay@[id]@);
            }
        }
        flush(&mut env.pager, &overlay, base.next_page, next_page);
        let ghost flushed = env.pager;
        let new_txn_id: u64 = base_txn_id + 1;
        obsolete.append(&mut scratch_pool);
        let mut i: usize = 0;
        while i < obsolete.len()
            invariant
                i <= obsolete@.len(),
                obsolete@ == txn.retired(),
                new_txn_id == txn.base() + 1,
                free_list@ == txn.free_list() + txn.retired().take(i as int).map_values(
                    |id: PageId| ((txn.base() + 1) as u64, id),
                ),
            decreases obsolete@.len() - i,
        {
            free_list.push((new_txn_id, obsolete[i]));
            i += 1;
            proof {
                let tagged = |id: PageId| ((txn.base() + 1) as u64, id);
                assert(txn.retired().take(i as int).map_values(tagged) =~= txn.retired().take(i - 1).map_values(
                    tagged,
                ).push((new_txn_id, txn.retired()[i - 1])));
            }
        }
        assert(txn.retired().take(i as int) =~= txn.retired());
        assert(free_list@ =~= txn.free_list_after());
        let free_list_head = freelist::store(&mut env.pager, &mut next_page, &free_list);
        let ghost written = env.pager;
        env.pager.sync_data();
        let meta = base.advance(root, next_page, free_list_head);
        env.pager.commit_meta(&meta);
        env.committed = meta;
        env.writing = false;
        proof {
            lemma_commit(*old(env), *env, txn, flushed, written);
        }
        Ok(())
    }

    /// Ends the transaction and discards its changes.
    pub fn rollback(self, env: &mut Environment)
        requires
            self.wf(*old(env)),
        ensures
            final(env).wf(),
            !final(env).writing(),
            final(env).pager() == old(env).pager(),
            final(env).meta() == old(env).meta(),
            final(env).readers() == old(env).readers(),
            final(env).contents() == old(env).contents(),
    {
        env.writing = false;
    }
}

/// Nodes stay as small as they were while others are added.
proof fn lemma_still_sized(before: WriteTxn, after: WriteTxn, env: Environment)
    requires
        before.wf(env),
        before.next_page() <= after.next_page(),
        extends(before.nodes(env), after.nodes(env), before.next_page(), after.next_page()),
        all_sized(after.nodes(env), before.next_page(), after.next_page()),
    ensures
        all_sized(after.nodes(env), env.meta().next_page, after.next_page()),
{
    assert forall|id: PageId| env.meta().next_page <= id < after.next_page() implies sized(
        #[trigger] after.nodes(env)[id],
    ) by {
        if id < before.next_page() {
            assert(before.overlay()@.contains_key(id));
            assert(before.nodes(env).contains_key(id));
            assert(sized(before.nodes(env)[id]));
        }
    }
}

/// What is read from a page fits in one.
proof fn lemma_stored_nodes_fit(file: Seq<u8>, id: PageId)
    requires
        stored_nodes(file).contains_key(id),
    ensures
        Node::body(stored_nodes(file)[id]).len() <= PAGE_CAPACITY,
{
    let page = page_at(file, id as int);
    let node = stored_nodes(file)[id];
    assert(holds::<Node>(page, node));
}

/// All nodes that a transaction sees fit if its own do.
proof fn lemma_all_fit(txn: WriteTxn, env: Environment)
    requires
        txn.wf(env),
        txn.nodes_fit(env),
    ensures
        all_go_into_pages(txn.nodes(env)),
{
    assert forall|id: PageId| #[trigger] txn.nodes(env).contains_key(id) implies goes_into_a_page(
        txn.nodes(env)[id],
    ) by {
        if txn.overlay()@.contains_key(id) {
            assert(goes_into_a_page(txn.nodes(env)[id]));
        } else {
            lemma_stored_nodes_fit(env.file(), id);
        }
    }
}

/// A transaction's own nodes fit if all that it sees do.
proof fn lemma_new_nodes_fit(txn: WriteTxn, env: Environment)
    requires
        txn.wf(env),
        all_go_into_pages(txn.nodes(env)),
    ensures
        txn.nodes_fit(env),
{
    assert forall|id: PageId| env.meta().next_page <= id < txn.next_page() implies goes_into_a_page(
        #[trigger] txn.nodes(env)[id],
    ) by {
        assert(txn.overlay()@.contains_key(id));
        assert(txn.nodes(env).contains_key(id));
    }
}

/// Nodes fit while none is added that is larger than those before.
proof fn lemma_still_fit(before: WriteTxn, after: WriteTxn, env: Environment)
    requires
        before.wf(env),
        before.nodes_fit(env),
        extends(before.nodes(env), after.nodes(env), before.next_page(), after.next_page()),
        none_larger(before.nodes(env), after.nodes(env), before.next_page(), after.next_page()),
    ensures
        after.nodes_fit(env),
{
    assert forall|id: PageId| env.meta().next_page <= id < after.next_page() implies Node::body(
        #[trigger] after.nodes(env)[id],
    ).len() <= PAGE_CAPACITY by {
        if id < before.next_page() {
            assert(before.overlay()@.contains_key(id));
            assert(before.nodes(env).contains_key(id));
        } else {
            assert(is_no_larger(before.nodes(env), after.nodes(env)[id]));
            let old_id = choose|old_id: PageId| #[trigger]
                before.nodes(env).contains_key(old_id) && node_size(after.nodes(env)[id]) <= node_size(
                    before.nodes(env)[old_id],
                );
            if before.overlay()@.contains_key(old_id) {
                assert(Node::body(before.nodes(env)[old_id]).len() <= PAGE_CAPACITY);
            } else {
                lemma_stored_nodes_fit(env.file(), old_id);
            }
        }
    }
}

/// `after` is what a commit made of `before`.
pub open spec fn is_committed_over(before: Environment, after: Environment) -> bool {
    let changes = after.pager().outbox().skip(before.pager().outbox().len() as int);
    let data = changes.take(changes.len() - 3);
    &&& after.pager().outbox() == before.pager().outbox() + changes
    &&& changes == commit_changes(data, before.pager().slot(), after.meta())
    &&& is_commit(before.file(), data, after.meta())
    &&& after.file() == replayed(before.file(), changes)
}

/// Writes every node of an overlay to its page.
#[verifier::rlimit(40)]
fn flush(pager: &mut Pager, overlay: &Overlay, start: PageId, end: PageId)
    requires
        old(pager).wf(),
        META_PAGE_COUNT <= start <= end,
        end * PAGE_SIZE <= usize::MAX,
        forall|id: PageId| start <= id < end ==> #[trigger] overlay@.contains_key(id),
        forall|id: PageId|
            start <= id < end ==> Node::body((#[trigger] overlay@[id])@).len() <= PAGE_CAPACITY,
    ensures
        wrote(*old(pager), *final(pager), start as int, end as int),
        forall|id: PageId|
            start <= id < end ==> #[trigger] stored_nodes(final(pager).file()).contains_key(id) && stored_nodes(
                final(pager).file(),
            )[id] == overlay@[id]@,
{
    let mut id: PageId = start;
    proof {
        lemma_wrote_nothing(*pager, start as int, end as int);
    }
    while id < end
        invariant
            pager.wf(),
            META_PAGE_COUNT <= start <= id <= end,
            end * PAGE_SIZE <= usize::MAX,
            forall|id: PageId| start <= id < end ==> #[trigger] overlay@.contains_key(id),
            forall|id: PageId|
                start <= id < end ==> Node::body((#[trigger] overlay@[id])@).len() <= PAGE_CAPACITY,
            wrote(*old(pager), *pager, start as int, end as int),
            forall|other: PageId|
                start <= other < id ==> #[trigger] stored_nodes(pager.file()).contains_key(other) && stored_nodes(
                    pager.file(),
                )[other] == overlay@[other]@,
        decreases end - id,
    {
        let ghost before = *pager;
        assert(overlay@.contains_key(id));
        let node = overlay.get(&id).unwrap();
        assert((id + 1) * PAGE_SIZE <= usize::MAX);
        let page = encode_node(node);
        pager.write_page(id, &page);
        proof {
            lemma_wrote_page(before, *pager, id, page@);
            lemma_wrote_widened(before, *pager, id as int, id + 1, start as int, end as int);
            lemma_wrote_more(*old(pager), before, *pager, start as int, end as int);
            replacing_a_page_leaves_the_others(before.file(), id as int, page@);
            reading_gives_back_what_was_written::<Node>(node@);
            assert forall|other: PageId| start <= other < id + 1 implies #[trigger] stored_nodes(
                pager.file(),
            ).contains_key(other) && stored_nodes(pager.file())[other] == overlay@[other]@ by {
                if other < id {
                    assert(stored_nodes(before.file()).contains_key(other));
                    assert(page_at(pager.file(), other as int) == page_at(before.file(), other as int));
                } else {
                    assert(page_at(pager.file(), id as int) == page@);
                }
            }
        }
        id += 1;
    }
}

/// What the steps of a commit add up to.
#[verifier::rlimit(40)]
proof fn lemma_commit(before: Environment, after: Environment, txn: WriteTxn, flushed: Pager, written: Pager)
    requires
        txn.wf(before),
        txn.can_be_stored(before),
        wrote(before.pager(), flushed, before.meta().next_page as int, txn.next_page() as int),
        forall|id: PageId|
            before.meta().next_page <= id < txn.next_page() ==> #[trigger] stored_nodes(flushed.file()).contains_key(id)
                && stored_nodes(flushed.file())[id] == txn.overlay()@[id]@,
        wrote(flushed, written, txn.next_page() as int, txn.end_page()),
        is_chain::<FreeListPage>(
            written.file(),
            after.meta().free_list_head,
            txn.next_page() as int,
            txn.end_page(),
        ),
        after.meta().magic == before.meta().magic,
        after.meta().txn_id == before.meta().txn_id + 1,
        after.meta().root == txn.root(),
        after.meta().next_page == txn.end_page(),
        after.pager().wf(),
        after.pager().slot() == 1 - before.pager().slot(),
        after.pager().outbox() == written.outbox().push(Change::Sync).push(
            Change::Write((1 - before.pager().slot()) as u64, page_for::<Meta>(after.meta())),
        ).push(Change::Sync),
        after.file() == with_page(
            written.file(),
            1 - before.pager().slot(),
            page_for::<Meta>(after.meta()),
        ),
        after.pager().confirmed() == written.confirmed(),
    ensures
        after.wf(),
        after.contents() == txn.contents(before),
        height(stored_nodes(after.file()), after.meta().root) == txn.height(before),
        is_even(stored_nodes(after.file()), after.meta().root) == txn.is_even(before),
        chained::<FreeListPage>(after.file(), after.meta().free_list_head) == chained::<FreeListPage>(
            written.file(),
            after.meta().free_list_head,
        ),
        is_committed_over(before, after),
        txn.is_stored(before, after),
        stored(after.pager().confirmed()) == stored(before.pager().confirmed()),
{
    let start = before.meta().next_page as int;
    let middle = txn.next_page() as int;
    let end = txn.end_page();
    let file = before.file();
    let slot = before.pager().slot();
    let meta = after.meta();
    let data = written.outbox().skip(before.pager().outbox().len() as int);
    assert(wrote(before.pager(), written, start, end)) by {
        lemma_wrote_widened(before.pager(), flushed, start, middle, start, end);
        lemma_wrote_widened(flushed, written, middle, end, start, end);
        lemma_wrote_more(before.pager(), flushed, written, start, end);
    }
    assert(is_committed(written.file(), meta) && contents(stored_nodes(written.file()), meta.root) == txn.contents(
        before,
    ) && height(stored_nodes(written.file()), meta.root) == txn.height(before) && is_even(
        stored_nodes(written.file()),
        meta.root,
    ) == txn.is_even(before)) by {
        lemma_flushed(before, txn, flushed);
        let last = written.outbox().skip(flushed.outbox().len() as int);
        writes_leave_other_pages(flushed.file(), last, middle, end);
        snapshots_are_kept(flushed.file(), written.file(), txn.root(), middle, end);
        lemma_store_widened(stored_nodes(written.file()), txn.root(), middle, end);
        lemma_chain_widened::<FreeListPage>(
            written.file(),
            meta.free_list_head,
            middle,
            end,
            META_PAGE_COUNT as int,
            end,
        );
    }
    assert(is_commit(file, data, meta));
    lemma_commit_recorded(before, after, written);
    a_commit_makes_its_store_the_latest(file, data, meta);
    assert(txn.is_stored(before, after)) by {
        let last = written.outbox().skip(flushed.outbox().len() as int);
        writes_leave_other_pages(flushed.file(), last, middle, end);
        lemma_nodes_kept(flushed.file(), written.file(), middle, end);
        lemma_meta_written_elsewhere(written.file(), slot, meta);
        lemma_nodes_kept(written.file(), after.file(), 1 - slot, 2 - slot);
        assert forall|id: PageId| start <= id < middle implies #[trigger] stored_nodes(after.file()).contains_key(id)
            && stored_nodes(after.file())[id] == txn.nodes(before)[id] by {
            assert(txn.overlay()@.contains_key(id));
            assert(stored_nodes(flushed.file()).contains_key(id));
            assert(stored_nodes(written.file()).contains_key(id));
        }
    }
    let confirmed = before.pager().confirmed();
    if confirmed.len() >= META_PAGE_COUNT * PAGE_SIZE {
        writes_leave_other_pages(confirmed, data, start, end);
        lemma_same_latest(confirmed, written.confirmed(), start, end);
        commits_are_kept(confirmed, written.confirmed(), latest(confirmed), start, end);
    }
}

/// Writing a record to one meta slot leaves the other pages.
proof fn lemma_meta_written_elsewhere(file: Seq<u8>, slot: u64, meta: Meta)
    requires
        slot < META_PAGE_COUNT,
    ensures
        agree_outside(file, with_page(file, 1 - slot, page_for::<Meta>(meta)), 1 - slot, 2 - slot),
{
    lemma_integers();
    lemma_meta_fits(meta);
    replacing_a_page_leaves_the_others(file, 1 - slot, page_for::<Meta>(meta));
}

/// What a commit recorded is what it did.
proof fn lemma_commit_recorded(before: Environment, after: Environment, written: Pager)
    requires
        wrote(before.pager(), written, before.meta().next_page as int, after.meta().next_page as int),
        is_commit(
            before.file(),
            written.outbox().skip(before.pager().outbox().len() as int),
            after.meta(),
        ),
        before.pager().slot() < META_PAGE_COUNT,
        after.pager().outbox() == written.outbox().push(Change::Sync).push(
            Change::Write((1 - before.pager().slot()) as u64, page_for::<Meta>(after.meta())),
        ).push(Change::Sync),
        after.file() == with_page(
            written.file(),
            1 - before.pager().slot(),
            page_for::<Meta>(after.meta()),
        ),
    ensures
        is_committed_over(before, after),
        after.file() == replayed(
            before.file(),
            commit_changes(
                written.outbox().skip(before.pager().outbox().len() as int),
                before.pager().slot(),
                after.meta(),
            ),
        ),
{
    let slot = before.pager().slot();
    let data = written.outbox().skip(before.pager().outbox().len() as int);
    let changes = after.pager().outbox().skip(before.pager().outbox().len() as int);
    assert(changes =~= commit_changes(data, slot, after.meta()));
    assert(changes.take(changes.len() - 3) =~= data);
    assert(after.pager().outbox() =~= before.pager().outbox() + changes);
    lemma_commit_replayed(before.file(), data, slot, after.meta());
}

/// Once its nodes are written, the file holds what a transaction sees.
proof fn lemma_flushed(env: Environment, txn: WriteTxn, flushed: Pager)
    requires
        txn.wf(env),
        wrote(env.pager(), flushed, env.meta().next_page as int, txn.next_page() as int),
        forall|id: PageId|
            env.meta().next_page <= id < txn.next_page() ==> #[trigger] stored_nodes(flushed.file()).contains_key(id)
                && stored_nodes(flushed.file())[id] == txn.overlay()@[id]@,
    ensures
        is_store(stored_nodes(flushed.file()), txn.root(), txn.next_page() as int),
        contents(stored_nodes(flushed.file()), txn.root()) == txn.contents(env),
        height(stored_nodes(flushed.file()), txn.root()) == txn.height(env),
        is_even(stored_nodes(flushed.file()), txn.root()) == txn.is_even(env),
{
    let start = env.meta().next_page as int;
    let end = txn.next_page() as int;
    let data = flushed.outbox().skip(env.pager().outbox().len() as int);
    writes_leave_other_pages(env.file(), data, start, end);
    let seen = txn.nodes(env);
    let nodes = stored_nodes(flushed.file());
    assert forall|id: PageId| id < txn.next_page() && #[trigger] seen.contains_key(id) implies nodes.contains_key(id)
        && nodes[id] == seen[id] by {
        if start <= id {
            assert(txn.overlay()@.contains_key(id));
            assert(nodes.contains_key(id));
        } else {
            assert(!txn.overlay()@.contains_key(id));
            assert(stored_nodes(env.file()).contains_key(id));
            assert(page_at(flushed.file(), id as int) == page_at(env.file(), id as int));
        }
    }
    contents_are_kept(seen, nodes, txn.root(), end);
}

// ---------------------------------------------------------------------------
// Laws
// ---------------------------------------------------------------------------

/// Isolation: a commit does not change what any snapshot shows.
pub proof fn a_commit_leaves_snapshots_alone(before: Environment, after: Environment, txn: ReadTxn)
    requires
        before.wf(),
        is_committed_over(before, after),
        txn.reads(before),
    ensures
        txn.reads(after),
        txn.contents(after) == txn.contents(before),
{
    let changes = after.pager().outbox().skip(before.pager().outbox().len() as int);
    let data = changes.take(changes.len() - 3);
    let start = before.meta().next_page as int;
    let end = after.meta().next_page as int;
    let slot = before.pager().slot();
    let middle = replayed(before.file(), data);
    writes_leave_other_pages(before.file(), data, start, end);
    snapshots_are_kept(before.file(), middle, txn.root(), start, end);
    lemma_commit_replayed(before.file(), data, slot, after.meta());
    lemma_record_kept(before.file(), middle, slot, before.meta(), start, end);
    lemma_meta_written(middle, slot, before.meta(), after.meta());
    assert(agree_outside(middle, after.file(), 0, META_PAGE_COUNT as int));
    snapshots_ignore_meta_pages(middle, after.file(), txn.root(), start);
    lemma_store_widened(stored_nodes(after.file()), txn.root(), start, end);
}

/// Atomicity: a crash while the real file catches up with a commit leaves a
/// file that opens with everything that the commit did, or with nothing of it.
/// A file that ends within its second meta page counts only if zeros in place of
/// what is missing do not make that page readable.
pub proof fn a_crash_keeps_all_of_a_commit_or_nothing(before: Environment, after: Environment, left: Seq<u8>)
    requires
        before.wf(),
        after.wf(),
        is_committed_over(before, after),
        is_steady(before.file()),
        before.pager().outbox() == Seq::<Change>::empty(),
        may_remain(before.file(), after.pager().outbox(), left),
    ensures
        is_store_file(left),
        stored(left) == before.contents() || stored(left) == after.contents(),
{
    let changes = after.pager().outbox().skip(0);
    let data = changes.take(changes.len() - 3);
    assert(changes =~= after.pager().outbox());
    a_commit_makes_its_store_the_latest(before.file(), data, after.meta());
    a_crash_leaves_the_old_store_or_the_new(before.file(), data, after.meta(), left);
}

/// Durability: opening the file of a store again shows its latest commit.
pub proof fn reopening_shows_the_latest_commit(env: Environment)
    requires
        env.wf(),
    ensures
        is_store_file(env.file()),
        latest(env.file()) == env.meta(),
        stored(env.file()) == env.contents(),
{
}

/// Durability: carrying the pending changes out on the real file makes it the
/// environment's file. That holds of a new store, and a commit keeps it so.
pub proof fn a_commit_keeps_the_pending_changes_complete(disk: Seq<u8>, before: Environment, after: Environment)
    requires
        before.file() == replayed(disk, before.pager().outbox()),
        is_committed_over(before, after),
    ensures
        after.file() == replayed(disk, after.pager().outbox()),
{
    let changes = after.pager().outbox().skip(before.pager().outbox().len() as int);
    lemma_replay_concat(disk, before.pager().outbox(), changes);
}

/// The pending changes of a new store make an empty file that store's.
pub proof fn the_first_changes_make_the_first_file()
    ensures
        replayed(Seq::empty(), first_changes()) == first_file(),
{
    let page = page_for::<Meta>(first_meta());
    lemma_integers();
    lemma_meta_fits(first_meta());
    let none = Seq::<Change>::empty();
    let file = Seq::<u8>::empty();
    let c1 = none.push(Change::SetLen(8192));
    let c2 = c1.push(Change::Write(0, page));
    let c3 = c2.push(Change::Sync);
    let c4 = c3.push(Change::Write(1, page));
    lemma_replay_push(file, none, Change::SetLen(8192));
    lemma_replay_push(file, c1, Change::Write(0, page));
    lemma_replay_push(file, c2, Change::Sync);
    lemma_replay_push(file, c3, Change::Write(1, page));
    lemma_replay_push(file, c4, Change::Sync);
    assert(first_changes() =~= c4.push(Change::Sync));
    assert(replayed(file, first_changes()) =~= first_file());
}

} // verus!
