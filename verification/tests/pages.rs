//! Pages: what is written for a record, and what can be read back.

use cics_tx::storage::btree::{encode_node, Node};
use cics_tx::storage::codec::{decode_page, encode_page, encoded_len};
use cics_tx::storage::freelist::FreeListPage;
use cics_tx::storage::overflow::OverflowPage;
use cics_tx::storage::pager::{FileOp, Meta, Pager, MAGIC, PAGE_SIZE};
use cics_tx::CicsError;

fn meta(txn_id: u64) -> Meta {
    Meta { magic: MAGIC, txn_id, root: Some(9), next_page: 10, free_list_head: None }
}

fn same_meta(a: &Meta, b: &Meta) -> bool {
    a.magic == b.magic
        && a.txn_id == b.txn_id
        && a.root == b.root
        && a.next_page == b.next_page
        && a.free_list_head == b.free_list_head
}

#[test]
fn a_meta_page_is_checksum_record_and_zeros() {
    let page = meta(5).encode();
    assert_eq!(page[0..4], [134, 172, 39, 101]);
    let body: [u8; 30] = [
        11, 123, 197, 193, 5, 0, 0, 0, 0, 0, 0, 0, 1, 9, 0, 0, 0, 0, 0, 0, 0, 10, 0, 0, 0, 0, 0, 0, 0, 0,
    ];
    assert_eq!(page[4..34], body);
    assert!(page[34..].iter().all(|b| *b == 0));
}

#[test]
fn a_meta_page_reads_back() {
    let back = Meta::decode(&meta(5).encode()).unwrap();
    assert!(same_meta(&back, &meta(5)));
}

#[test]
fn a_meta_page_with_a_list_reads_back() {
    let m = Meta { magic: MAGIC, txn_id: u64::MAX, root: None, next_page: 2, free_list_head: Some(77) };
    assert!(same_meta(&Meta::decode(&m.encode()).unwrap(), &m));
}

#[test]
fn a_changed_byte_is_noticed() {
    for at in [0usize, 4, 9, 12, 20] {
        let mut page = meta(5).encode();
        page[at] ^= 1;
        assert!(Meta::decode(&page).is_none(), "byte {at}");
    }
}

#[test]
fn a_changed_padding_byte_makes_no_difference() {
    let mut page = meta(5).encode();
    page[PAGE_SIZE - 1] = 1;
    assert!(Meta::decode(&page).is_some());
}

#[test]
fn another_magic_is_not_ours() {
    let m = Meta { magic: MAGIC + 1, txn_id: 1, root: None, next_page: 2, free_list_head: None };
    assert!(Meta::decode(&m.encode()).is_none());
}

#[test]
fn advancing_counts_the_commit() {
    let m = meta(5).advance(Some(20), 21, Some(3));
    let expected = Meta { magic: MAGIC, txn_id: 6, root: Some(20), next_page: 21, free_list_head: Some(3) };
    assert!(same_meta(&m, &expected));
}

fn leaf() -> Node {
    Node::Leaf { keys: vec![b"k".to_vec()], values: vec![b"v".to_vec()] }
}

fn internal() -> Node {
    Node::Internal { keys: vec![b"m".to_vec()], children: vec![7, 9] }
}

#[test]
fn a_leaf_is_stored_under_its_tag() {
    let page = encode_node(&leaf());
    assert_eq!(page[0..4], [37, 220, 193, 104]);
    assert_eq!(page[4..8], [0, 0, 0, 0]);
    assert_eq!(page[8..16], 1u64.to_le_bytes());
    assert_eq!(page[24], b'k');
    assert_eq!(page[41], b'v');
    assert_eq!(encoded_len(&leaf()), 42);
}

#[test]
fn an_internal_node_is_stored_under_its_tag() {
    let page = encode_node(&internal());
    assert_eq!(page[0..4], [140, 12, 64, 249]);
    assert_eq!(page[4..8], [1, 0, 0, 0]);
    assert_eq!(page[33..41], 7u64.to_le_bytes());
    assert_eq!(page[41..49], 9u64.to_le_bytes());
    assert_eq!(encoded_len(&internal()), 49);
}

#[test]
fn nodes_read_back() {
    match decode_page::<Node>(&encode_node(&leaf())) {
        Some(Node::Leaf { keys, values }) => {
            assert_eq!(keys, vec![b"k".to_vec()]);
            assert_eq!(values, vec![b"v".to_vec()]);
        }
        other => panic!("{other:?}"),
    }
    match decode_page::<Node>(&encode_node(&internal())) {
        Some(Node::Internal { keys, children }) => {
            assert_eq!(keys, vec![b"m".to_vec()]);
            assert_eq!(children, vec![7, 9]);
        }
        other => panic!("{other:?}"),
    }
}

#[test]
fn an_unknown_tag_is_no_node() {
    let mut page = encode_node(&leaf());
    page[4] = 2;
    assert!(decode_page::<Node>(&page).is_none());
}

#[test]
fn a_length_beyond_the_page_is_no_node() {
    let mut page = encode_node(&leaf());
    page[8..16].copy_from_slice(&u64::MAX.to_le_bytes());
    assert!(decode_page::<Node>(&page).is_none());
}

#[test]
fn chained_pages_read_back() {
    let page = encode_page(&FreeListPage { next: Some(4), entries: vec![(3, 8)] });
    assert_eq!(page[0..4], [52, 122, 12, 70]);
    assert_eq!(page[4], 1);
    let back: FreeListPage = decode_page(&page).unwrap();
    assert_eq!((back.next, back.entries), (Some(4), vec![(3, 8)]));

    let page = encode_page(&OverflowPage { next: None, data: b"abc".to_vec() });
    assert_eq!(page[0..4], [190, 56, 82, 40]);
    assert_eq!(page[4], 0);
    let back: OverflowPage = decode_page(&page).unwrap();
    assert_eq!((back.next, back.data), (None, b"abc".to_vec()));
}

#[test]
fn sizes_of_chained_pages() {
    assert_eq!(encoded_len(&FreeListPage { next: Some(4), entries: vec![(3, 8)] }), 37);
    assert_eq!(encoded_len(&FreeListPage { next: None, entries: vec![] }), 13);
    assert_eq!(encoded_len(&OverflowPage { next: None, data: b"abc".to_vec() }), 16);
    assert_eq!(encoded_len(&meta(5)), 34);
}

#[test]
fn an_option_that_is_neither_is_refused() {
    let mut page = encode_page(&OverflowPage { next: None, data: b"abc".to_vec() });
    page[4] = 2;
    assert!(decode_page::<OverflowPage>(&page).is_none());
}

#[test]
fn a_page_of_zeros_holds_nothing() {
    let page = [0u8; PAGE_SIZE];
    assert!(Meta::decode(&page).is_none());
    assert!(decode_page::<Node>(&page).is_none());
}

#[test]
fn a_new_store_asks_for_its_file() {
    let (pager, m) = Pager::open(None).unwrap();
    assert_eq!((m.txn_id, m.root, m.next_page, m.free_list_head), (0, None, 2, None));
    let ops = pager.pending();
    assert_eq!(ops.len(), 5);
    assert!(matches!(&ops[0], FileOp::SetLen(8192)));
    assert!(matches!(&ops[1], FileOp::Write(0, page) if page[..] == m.encode()[..]));
    assert!(matches!(&ops[2], FileOp::Sync));
    assert!(matches!(&ops[3], FileOp::Write(1, page) if page[..] == m.encode()[..]));
    assert!(matches!(&ops[4], FileOp::Sync));
}

#[test]
fn opening_takes_the_newer_record() {
    let mut file = meta(5).encode().to_vec();
    file.extend_from_slice(&meta(6).encode());
    assert_eq!(Pager::open(Some(file)).unwrap().1.txn_id, 6);

    let mut file = meta(8).encode().to_vec();
    file.extend_from_slice(&meta(7).encode());
    assert_eq!(Pager::open(Some(file)).unwrap().1.txn_id, 8);
}

#[test]
fn opening_takes_the_record_that_can_be_read() {
    let mut file = meta(5).encode().to_vec();
    file.extend_from_slice(&[1u8; PAGE_SIZE]);
    assert_eq!(Pager::open(Some(file)).unwrap().1.txn_id, 5);

    let mut file = vec![1u8; PAGE_SIZE];
    file.extend_from_slice(&meta(7).encode());
    assert_eq!(Pager::open(Some(file)).unwrap().1.txn_id, 7);
}

#[test]
fn a_file_without_a_record_is_corrupt() {
    assert!(matches!(Pager::open(Some(vec![0u8; 2 * PAGE_SIZE])), Err(CicsError::Io(_))));
    assert!(matches!(Pager::open(Some(vec![])), Err(CicsError::Io(_))));
}

#[test]
fn commits_take_turns_with_the_slots() {
    let (mut pager, m) = Pager::open(None).unwrap();
    pager.confirm();
    let next = m.advance(None, 2, None);
    pager.commit_meta(&next);
    assert!(matches!(&pager.pending()[0], FileOp::Write(1, _)));
    pager.confirm();
    pager.commit_meta(&next.advance(None, 2, None));
    assert!(matches!(&pager.pending()[0], FileOp::Write(0, _)));
}

#[test]
fn pages_are_read_as_they_were_written() {
    let (mut pager, _) = Pager::open(None).unwrap();
    pager.confirm();
    assert!(matches!(pager.read_page(3), Err(CicsError::Io(_))));
    let page = [7u8; PAGE_SIZE];
    pager.write_page(3, &page);
    assert_eq!(pager.read_page(3).unwrap(), page);
    assert_eq!(pager.read_page(2).unwrap(), [0u8; PAGE_SIZE]);
    assert!(Meta::decode(&pager.read_page(0).unwrap()).is_some());
    pager.sync_data();
    assert_eq!(pager.pending().len(), 2);
}

#[test]
fn reverting_goes_back_to_the_confirmed_record() {
    let (mut pager, m) = Pager::open(None).unwrap();
    pager.confirm();
    pager.commit_meta(&m.advance(None, 40, None));
    let back = pager.revert();
    assert_eq!((back.txn_id, back.next_page), (0, 2));
    assert!(pager.pending().is_empty());
}
