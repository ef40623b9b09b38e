//! Overflow pages: a value too large for a leaf is cut into pieces, each on a
//! page of its own, and the pages are chained.

use vstd::prelude::*;

use super::chain::{chained, comes_to_an_end, ends_within, is_chain, items_within, lemma_chain, Chained};
use super::codec::{decode_page, PageRecord, PAGE_CAPACITY};
use super::pager::{page_count, PageId, Pager};
use super::wire::{
    deserialize_linked_blob, lemma_integers, linked_blob_bytes, linked_blob_reads_once, linked_blob_size,
    serialize_linked_blob,
};

verus! {

/// Bytes of a value in a page.
pub const CHUNK: usize = 4000;

/// One page of a large value.
pub struct OverflowPage {
    pub next: Option<PageId>,
    pub data: Vec<u8>,
}

/// The mathematical value of an overflow page.
#[verifier::ext_equal]
pub struct OverflowView {
    pub next: Option<PageId>,
    pub data: Seq<u8>,
}

impl View for OverflowPage {
    type V = OverflowView;

    open spec fn view(&self) -> OverflowView {
        OverflowView { next: self.next, data: self.data@ }
    }
}

impl PageRecord for OverflowPage {
    open spec fn body(v: OverflowView) -> Seq<u8> {
        linked_blob_bytes(v.next, v.data)
    }

    proof fn body_reads_once(a: OverflowView, b: OverflowView, bytes: Seq<u8>) {
        linked_blob_reads_once(a.next, a.data, b.next, b.data, bytes);
    }

    fn to_body(&self) -> (r: Vec<u8>) {
        serialize_linked_blob(self.next, &self.data).unwrap()
    }

    fn from_body(bytes: &[u8]) -> (r: Option<OverflowPage>) {
        match deserialize_linked_blob(bytes) {
            Some((next, data)) => {
                let page = OverflowPage { next, data };
                assert(OverflowPage::body(page@).is_prefix_of(bytes@));
                Some(page)
            },
            None => {
                proof {
                    assert forall|v: OverflowView| !(#[trigger] OverflowPage::body(v)).is_prefix_of(bytes@) by {
                        assert(!linked_blob_bytes(v.next, v.data).is_prefix_of(bytes@));
                    }
                }
                None
            },
        }
    }

    fn body_len(&self) -> (r: usize) {
        linked_blob_size(self.next, &self.data).unwrap() as usize
    }
}

impl Chained for OverflowPage {
    type Item = u8;

    open spec fn next_of(v: OverflowView) -> Option<PageId> {
        v.next
    }

    open spec fn items_of(v: OverflowView) -> Seq<u8> {
        v.data
    }

    fn next_page(&self) -> (r: Option<PageId>) {
        self.next
    }
}

/// A full overflow page fits in a page.
pub proof fn a_full_chunk_fits(v: OverflowView)
    requires
        v.data.len() <= CHUNK,
    ensures
        OverflowPage::body(v).len() <= PAGE_CAPACITY,
{
    lemma_integers();
}

/// Puts a value together again from its pages. `len` is how long it is expected
/// to be.
pub fn read_chain(pager: &Pager, head: PageId, len: u64) -> (r: Vec<u8>)
    requires
        is_chain::<OverflowPage>(pager.file(), Some(head), 0, page_count(pager.file())),
        len <= isize::MAX,
    ensures
        r@ == chained::<OverflowPage>(pager.file(), Some(head)),
{
    let ghost file = pager.file();
    let ghost end = page_count(file);
    let ghost mut n = choose|n: nat| ends_within::<OverflowPage>(file, Some(head), 0, end, n);
    proof {
        lemma_chain::<OverflowPage>(file, Some(head), 0, end, n);
    }
    let mut out: Vec<u8> = Vec::with_capacity(len as usize);
    let mut cur = Some(head);
    assert(out@ + items_within::<OverflowPage>(file, cur, n) =~= chained::<OverflowPage>(file, Some(head)));
    while cur.is_some()
        invariant
            file == pager.file(),
            ends_within::<OverflowPage>(file, cur, 0, end, n),
            out@ + items_within::<OverflowPage>(file, cur, n) == chained::<OverflowPage>(file, Some(head)),
        decreases n,
    {
        let id: PageId = cur.unwrap();
        let buf = pager.read_page(id).unwrap();
        let page: OverflowPage = decode_page(&buf).unwrap();
        let ghost before = out@;
        let ghost rest = items_within::<OverflowPage>(file, page.next, (n - 1) as nat);
        assert(before + (page.data@ + rest) =~= before + page.data@ + rest);
        out.extend_from_slice(page.data.as_slice());
        cur = page.next;
        proof {
            n = (n - 1) as nat;
        }
    }
    assert(out@ + items_within::<OverflowPage>(file, cur, n) =~= out@);
    out
}

/// As `read_chain`, where it is not known that the pages from `head` on are
/// those of a value: none where they are not.
pub fn try_read_chain(pager: &Pager, head: PageId, len: u64) -> (r: Option<Vec<u8>>)
    requires
        len <= isize::MAX,
    ensures
        r is Some <==> is_chain::<OverflowPage>(pager.file(), Some(head), 0, page_count(pager.file())),
        r matches Some(value) ==> value@ == chained::<OverflowPage>(pager.file(), Some(head)),
{
    if comes_to_an_end::<OverflowPage>(pager, Some(head), 0, pager.pages()) {
        Some(read_chain(pager, head, len))
    } else {
        None
    }
}

} // verus!
