//! Checksummed pages, shared by everything that is stored in one:
//! `[u32 checksum][record body][zero padding]`.

use vstd::bytes::{spec_u32_to_le_bytes, u32_from_le_bytes, u32_to_le_bytes};
use vstd::prelude::*;

use super::pager::PAGE_SIZE;
use super::wire::{checksum, crc32, lemma_integers};

verus! {

/// Bytes that a page's checksum takes.
pub const CHECKSUM_SIZE: usize = 4;

/// Bytes of a page that its record may take.
pub const PAGE_CAPACITY: usize = 4092;

/// A record that a page can hold. Its view is the mathematical value that is
/// stored, and `body` the bytes that are stored for it.
pub trait PageRecord: Sized + View {
    /// The bytes that stand for a record.
    spec fn body(v: Self::V) -> Seq<u8>;

    /// A page's bytes begin with the body of one record at most.
    proof fn body_reads_once(a: Self::V, b: Self::V, bytes: Seq<u8>)
        requires
            Self::body(a).is_prefix_of(bytes),
            Self::body(b).is_prefix_of(bytes),
            bytes.len() <= PAGE_SIZE,
        ensures
            a == b,
    ;

    /// Writes the record's body.
    fn to_body(&self) -> (r: Vec<u8>)
        requires
            Self::body(self@).len() <= PAGE_SIZE,
        ensures
            r@ == Self::body(self@),
    ;

    /// Reads the record whose body `bytes` begins with, if there is one.
    fn from_body(bytes: &[u8]) -> (r: Option<Self>)
        requires
            bytes@.len() <= PAGE_SIZE,
        ensures
            match r {
                Some(v) => Self::body(v@).is_prefix_of(bytes@),
                None => forall|v: Self::V| !(#[trigger] Self::body(v)).is_prefix_of(bytes@),
            },
    ;

    /// The length of the record's body, without writing it.
    fn body_len(&self) -> (r: usize)
        requires
            Self::body(self@).len() <= usize::MAX,
        ensures
            r == Self::body(self@).len(),
    ;
}

/// `page` holds the record `v`: its checksum is that of the record's body, and
/// the body follows.
pub open spec fn holds<T: PageRecord>(page: Seq<u8>, v: T::V) -> bool {
    &&& page.len() == PAGE_SIZE
    &&& page.subrange(0, 4) == spec_u32_to_le_bytes(crc32(T::body(v)))
    &&& T::body(v).is_prefix_of(page.subrange(4, PAGE_SIZE as int))
}

/// The page that is written for a record.
pub open spec fn page_for<T: PageRecord>(v: T::V) -> Seq<u8> {
    spec_u32_to_le_bytes(crc32(T::body(v))) + T::body(v) + Seq::new(
        (PAGE_CAPACITY - T::body(v).len()) as nat,
        |i: int| 0u8,
    )
}

/// The record that a page holds, if it holds one.
pub open spec fn record_in<T: PageRecord>(page: Seq<u8>) -> Option<T::V> {
    if exists|v: T::V| holds::<T>(page, v) {
        Some(choose|v: T::V| holds::<T>(page, v))
    } else {
        None
    }
}

/// A page holds one record at most.
pub proof fn page_holds_one_record<T: PageRecord>(page: Seq<u8>, a: T::V, b: T::V)
    requires
        holds::<T>(page, a),
        holds::<T>(page, b),
    ensures
        a == b,
{
    T::body_reads_once(a, b, page.subrange(4, PAGE_SIZE as int));
}

/// Reading a page that was written for a record gives that record back.
pub proof fn reading_gives_back_what_was_written<T: PageRecord>(v: T::V)
    requires
        T::body(v).len() <= PAGE_CAPACITY,
    ensures
        holds::<T>(page_for::<T>(v), v),
        record_in::<T>(page_for::<T>(v)) == Some(v),
{
    lemma_integers();
    let page = page_for::<T>(v);
    assert(page.subrange(0, 4) =~= spec_u32_to_le_bytes(crc32(T::body(v))));
    assert(T::body(v) =~= page.subrange(4, PAGE_SIZE as int).subrange(0, T::body(v).len() as int));
    assert(holds::<T>(page, v));
    page_holds_one_record::<T>(page, v, record_in::<T>(page)->0);
}

/// The page for `value`: checksum, body, zeros up to the page's end.
pub fn encode_page<T: PageRecord>(value: &T) -> (page: [u8; PAGE_SIZE])
    requires
        T::body(value@).len() <= PAGE_CAPACITY,
    ensures
        page@ == page_for::<T>(value@),
{
    let body = value.to_body();
    let sum = u32_to_le_bytes(checksum(body.as_slice()));
    let mut page = [0u8; PAGE_SIZE];
    page[0] = sum[0];
    page[1] = sum[1];
    page[2] = sum[2];
    page[3] = sum[3];
    let mut i: usize = 0;
    while i < body.len()
        invariant
            i <= body@.len() <= PAGE_CAPACITY,
            sum@.len() == 4,
            forall|j: int| 0 <= j < 4 ==> page@[j] == sum@[j],
            forall|j: int| 0 <= j < i ==> page@[4 + j] == body@[j],
            forall|j: int| 4 + i <= j < PAGE_SIZE ==> page@[j] == 0,
        decreases body@.len() - i,
    {
        page[4 + i] = body[i];
        i += 1;
    }
    assert(page@ =~= page_for::<T>(value@)) by {
        lemma_integers();
        assert forall|j: int| 0 <= j < PAGE_SIZE implies page@[j] == page_for::<T>(value@)[j] by {
            if 4 <= j < 4 + body@.len() {
                assert(page@[4 + (j - 4)] == body@[j - 4]);
            }
        }
    }
    page
}

/// The record that a page holds, if its checksum and its body are in order.
pub fn decode_page<T: PageRecord>(page: &[u8; PAGE_SIZE]) -> (r: Option<T>)
    ensures
        match r {
            Some(v) => holds::<T>(page@, v@),
            None => forall|v: T::V| !#[trigger] holds::<T>(page@, v),
        },
        r is Some <==> record_in::<T>(page@) is Some,
        r matches Some(v) ==> record_in::<T>(page@) == Some(v@),
{
    let bytes: &[u8] = page.as_slice();
    let stored = u32_from_le_bytes(vstd::slice::slice_subrange(bytes, 0, 4));
    let rest = vstd::slice::slice_subrange(bytes, 4, PAGE_SIZE);
    proof {
        vstd::bytes::lemma_auto_spec_u32_to_from_le_bytes();
    }
    let value = match T::from_body(rest) {
        Some(value) => value,
        None => {
            return None;
        },
    };
    let body = value.to_body();
    if body.len() > PAGE_SIZE - CHECKSUM_SIZE || checksum(body.as_slice()) != stored {
        proof {
            assert forall|v: T::V| !#[trigger] holds::<T>(page@, v) by {
                if holds::<T>(page@, v) {
                    T::body_reads_once(v, value@, rest@);
                    assert(spec_u32_to_le_bytes(crc32(T::body(v))).len() == 4);
                }
            }
        }
        return None;
    }
    proof {
        assert(holds::<T>(page@, value@));
        page_holds_one_record::<T>(page@, value@, record_in::<T>(page@)->0);
    }
    Some(value)
}

/// The size that a record would take in a page, checksum and all.
pub fn encoded_len<T: PageRecord>(value: &T) -> (r: usize)
    requires
        T::body(value@).len() <= usize::MAX - CHECKSUM_SIZE,
    ensures
        r == T::body(value@).len() + CHECKSUM_SIZE,
{
    value.body_len() + CHECKSUM_SIZE
}

} // verus!
