//! The list of pages that past commits left unreachable, each with the id of
//! the transaction that left it. It is kept as a chain of pages, read whole by
//! every write transaction and written anew by every commit. The pages of the
//! chain are themselves always new ones.

use vstd::prelude::*;

use super::chain::{
    chained, chains_are_kept, ends_within, is_chain, items_within, lemma_chain, lemma_chain_grown,
    lemma_chain_widened, lemma_empty_chain, link_at, Chained,
};
use super::codec::{decode_page, encode_page, reading_gives_back_what_was_written, PageRecord, PAGE_CAPACITY};
use super::pager::{
    agree_outside, lemma_wrote_more, lemma_wrote_nothing, lemma_wrote_page, lemma_wrote_widened, page_at, page_count,
    replacing_a_page_leaves_the_others, wrote, PageId, Pager, META_PAGE_COUNT, PAGE_SIZE,
};
use super::wire::{
    deserialize_linked_pairs, lemma_integers, lemma_pairs_len, linked_pairs_bytes, linked_pairs_read_once, linked_pairs_size,
    serialize_linked_pairs,
};

verus! {

/// Entries in a page of the list.
pub const CHUNK: usize = 200;

/// A transaction's id, and a page that it left unreachable.
pub type FreeEntry = (u64, PageId);

/// One page of the list.
pub struct FreeListPage {
    pub next: Option<PageId>,
    pub entries: Vec<FreeEntry>,
}

/// The mathematical value of a page of the list.
#[verifier::ext_equal]
pub struct FreeListView {
    pub next: Option<PageId>,
    pub entries: Seq<FreeEntry>,
}

impl View for FreeListPage {
    type V = FreeListView;

    open spec fn view(&self) -> FreeListView {
        FreeListView { next: self.next, entries: self.entries@ }
    }
}

impl PageRecord for FreeListPage {
    open spec fn body(v: FreeListView) -> Seq<u8> {
        linked_pairs_bytes(v.next, v.entries)
    }

    proof fn body_reads_once(a: FreeListView, b: FreeListView, bytes: Seq<u8>) {
        linked_pairs_read_once(a.next, a.entries, b.next, b.entries, bytes);
    }

    fn to_body(&self) -> (r: Vec<u8>) {
        serialize_linked_pairs(self.next, &self.entries).unwrap()
    }

    fn from_body(bytes: &[u8]) -> (r: Option<FreeListPage>) {
        match deserialize_linked_pairs(bytes) {
            Some((next, entries)) => {
                let page = FreeListPage { next, entries };
                assert(FreeListPage::body(page@).is_prefix_of(bytes@));
                Some(page)
            },
            None => {
                proof {
                    assert forall|v: FreeListView| !(#[trigger] FreeListPage::body(v)).is_prefix_of(bytes@) by {
                        assert(!linked_pairs_bytes(v.next, v.entries).is_prefix_of(bytes@));
                    }
                }
                None
            },
        }
    }

    fn body_len(&self) -> (r: usize) {
        linked_pairs_size(self.next, &self.entries).unwrap() as usize
    }
}

impl Chained for FreeListPage {
    type Item = FreeEntry;

    open spec fn next_of(v: FreeListView) -> Option<PageId> {
        v.next
    }

    open spec fn items_of(v: FreeListView) -> Seq<FreeEntry> {
        v.entries
    }

    fn next_page(&self) -> (r: Option<PageId>) {
        self.next
    }
}

/// The pages that a list of `len` entries takes.
pub open spec fn pages_for(len: int) -> int {
    (len + CHUNK - 1) / CHUNK as int
}

/// The order in which a stored list is read back: each chunk was put in front
/// of those before it.
pub open spec fn last_chunk_first(entries: Seq<FreeEntry>) -> Seq<FreeEntry>
    decreases entries.len(),
{
    if entries.len() == 0 {
        Seq::empty()
    } else {
        let start = (entries.len() - 1) / CHUNK as int * CHUNK;
        entries.skip(start) + last_chunk_first(entries.take(start))
    }
}

/// A stored list is read back with the same entries, each as often.
pub proof fn storing_keeps_the_entries(entries: Seq<FreeEntry>)
    ensures
        last_chunk_first(entries).to_multiset() == entries.to_multiset(),
    decreases entries.len(),
{
    if entries.len() > 0 {
        let start = (entries.len() - 1) / CHUNK as int * CHUNK;
        let rest = entries.take(start);
        storing_keeps_the_entries(rest);
        assert(entries =~= rest + entries.skip(start));
        vstd::seq_lib::lemma_multiset_commutative(rest, entries.skip(start));
        vstd::seq_lib::lemma_multiset_commutative(entries.skip(start), last_chunk_first(rest));
        assert(last_chunk_first(entries).to_multiset() =~= entries.to_multiset());
    } else {
        assert(entries =~= Seq::empty());
    }
}

/// A stored list is read back with as many entries.
pub proof fn storing_keeps_the_length(entries: Seq<FreeEntry>)
    ensures
        last_chunk_first(entries).len() == entries.len(),
    decreases entries.len(),
{
    if entries.len() > 0 {
        let start = (entries.len() - 1) / CHUNK as int * CHUNK;
        storing_keeps_the_length(entries.take(start));
    }
}

/// A list that one page can hold is read back as it was.
pub proof fn a_short_list_keeps_its_order(entries: Seq<FreeEntry>)
    requires
        entries.len() <= CHUNK,
    ensures
        last_chunk_first(entries) == entries,
{
    if entries.len() > 0 {
        assert((entries.len() - 1) / CHUNK as int == 0);
        assert(last_chunk_first(entries.take(0)) =~= Seq::empty());
        assert(entries.skip(0) + Seq::empty() =~= entries);
    } else {
        assert(entries =~= Seq::empty());
    }
}

/// Reads the whole list.
pub fn load(pager: &Pager, head: Option<PageId>) -> (r: Vec<FreeEntry>)
    requires
        is_chain::<FreeListPage>(pager.file(), head, 0, page_count(pager.file())),
    ensures
        r@ == chained::<FreeListPage>(pager.file(), head),
{
    let ghost file = pager.file();
    let ghost len = page_count(file);
    let ghost mut n = choose|n: nat| ends_within::<FreeListPage>(file, head, 0, len, n);
    proof {
        lemma_chain::<FreeListPage>(file, head, 0, len, n);
    }
    let mut out: Vec<FreeEntry> = Vec::new();
    let mut cur = head;
    assert(out@ + items_within::<FreeListPage>(file, cur, n) =~= chained::<FreeListPage>(file, head));
    while cur.is_some()
        invariant
            file == pager.file(),
            ends_within::<FreeListPage>(file, cur, 0, len, n),
            out@ + items_within::<FreeListPage>(file, cur, n) == chained::<FreeListPage>(file, head),
        decreases n,
    {
        let id: PageId = cur.unwrap();
        let buf = pager.read_page(id).unwrap();
        let mut page: FreeListPage = decode_page(&buf).unwrap();
        let ghost before = out@;
        let ghost rest = items_within::<FreeListPage>(file, page.next, (n - 1) as nat);
        assert(before + (page.entries@ + rest) =~= before + page.entries@ + rest);
        out.append(&mut page.entries);
        cur = page.next;
        proof {
            n = (n - 1) as nat;
        }
    }
    assert(out@ + items_within::<FreeListPage>(file, cur, n) =~= out@);
    out
}

/// A full page of the list fits in a page.
proof fn lemma_chunk_fits(v: FreeListView)
    requires
        v.entries.len() <= CHUNK,
    ensures
        FreeListPage::body(v).len() <= PAGE_CAPACITY,
{
    lemma_integers();
    lemma_pairs_len(v.entries);
}

/// Writes a list as a new chain of pages, which begin at the next one that is
/// free, and returns the chain's head: none where the list is empty.
#[verifier::rlimit(40)]
pub fn store(pager: &mut Pager, next_page: &mut PageId, entries: &Vec<FreeEntry>) -> (r: Option<PageId>)
    requires
        old(pager).wf(),
        META_PAGE_COUNT <= *old(next_page),
        (*old(next_page) + pages_for(entries@.len() as int)) * PAGE_SIZE <= usize::MAX,
    ensures
        *final(next_page) == *old(next_page) + pages_for(entries@.len() as int),
        wrote(*old(pager), *final(pager), *old(next_page) as int, *final(next_page) as int),
        is_chain::<FreeListPage>(
            final(pager).file(),
            r,
            *old(next_page) as int,
            *final(next_page) as int,
        ),
        chained::<FreeListPage>(final(pager).file(), r) == last_chunk_first(entries@),
        r == (if entries@.len() == 0 {
            None
        } else {
            Some((*final(next_page) - 1) as PageId)
        }),
{
    let ghost start = *next_page as int;
    let ghost end = start + pages_for(entries@.len() as int);
    let mut next: Option<PageId> = None;
    let mut i: usize = 0;
    proof {
        lemma_wrote_nothing(*pager, start, end);
        lemma_empty_chain::<FreeListPage>(pager.file(), start, start);
        assert(entries@.take(0) =~= Seq::empty());
    }
    while i < entries.len()
        invariant
            pager.wf(),
            META_PAGE_COUNT <= start,
            end == start + pages_for(entries@.len() as int),
            end * PAGE_SIZE <= usize::MAX,
            i <= entries@.len(),
            i % CHUNK == 0 || i == entries@.len(),
            *next_page == start + pages_for(i as int),
            wrote(*old(pager), *pager, start, end),
            is_chain::<FreeListPage>(pager.file(), next, start, *next_page as int),
            chained::<FreeListPage>(pager.file(), next) == last_chunk_first(entries@.take(i as int)),
            next == (if i == 0 {
                None
            } else {
                Some((*next_page - 1) as PageId)
            }),
        decreases entries@.len() - i,
    {
        let len: usize = if entries.len() - i < CHUNK {
            entries.len() - i
        } else {
            CHUNK
        };
        assert(*next_page < end && (*next_page + 1) * PAGE_SIZE <= usize::MAX);
        let id: PageId = *next_page;
        let chunk = vstd::slice::slice_to_vec(vstd::slice::slice_subrange(entries.as_slice(), i, i + len));
        let page = FreeListPage { next, entries: chunk };
        proof {
            lemma_chunk_fits(page@);
        }
        let ghost before = *pager;
        let bytes = encode_page(&page);
        pager.write_page(id, &bytes);
        *next_page = id + 1;
        proof {
            lemma_wrote_page(before, *pager, id, bytes@);
            lemma_wrote_widened(before, *pager, id as int, id + 1, start, end);
            lemma_wrote_more(*old(pager), before, *pager, start, end);
            replacing_a_page_leaves_the_others(before.file(), id as int, bytes@);
            assert(agree_outside(before.file(), pager.file(), id as int, id + 1));
            chains_are_kept::<FreeListPage>(before.file(), pager.file(), next, start, id as int, id as int, id + 1);
            lemma_chain_widened::<FreeListPage>(pager.file(), next, start, id as int, start, id + 1);
            reading_gives_back_what_was_written::<FreeListPage>(page@);
            assert(page_at(pager.file(), id as int) == bytes@);
            assert(link_at::<FreeListPage>(pager.file(), id) == Some(page@));
            lemma_chain_grown::<FreeListPage>(pager.file(), id, start, id + 1);
            let all = entries@.take(i + len);
            assert((all.len() - 1) / CHUNK as int * CHUNK == i);
            assert(all.take(i as int) =~= entries@.take(i as int));
            assert(all.skip(i as int) =~= page.entries@);
        }
        next = Some(id);
        i = i + len;
    }
    assert(entries@.take(i as int) =~= entries@);
    next
}

} // verus!
