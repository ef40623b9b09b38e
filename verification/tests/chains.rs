//! The free list and overflow pages.

use cics_tx::storage::chain::comes_to_an_end;
use cics_tx::storage::codec::encode_page;
use cics_tx::storage::freelist::{load, store, FreeListPage};
use cics_tx::storage::overflow::{read_chain, try_read_chain, OverflowPage, CHUNK};
use cics_tx::storage::pager::{FileOp, Pager};

fn pager() -> Pager {
    let (mut pager, _) = Pager::open(None).unwrap();
    pager.confirm();
    pager
}

#[test]
fn an_empty_list_takes_no_page() {
    let mut pager = pager();
    let mut next_page = 2;
    assert_eq!(store(&mut pager, &mut next_page, &Vec::new()), None);
    assert_eq!(next_page, 2);
    assert!(load(&pager, None).is_empty());
    assert!(pager.pending().is_empty());
}

#[test]
fn a_short_list_comes_back_in_order() {
    let mut pager = pager();
    let mut next_page = 2;
    let entries = vec![(1, 5), (1, 6), (3, 9)];
    let head = store(&mut pager, &mut next_page, &entries);
    assert_eq!(head, Some(2));
    assert_eq!(next_page, 3);
    assert_eq!(load(&pager, head), entries);
}

#[test]
fn a_long_list_comes_back_last_chunk_first() {
    let mut pager = pager();
    let mut next_page = 10;
    let entries: Vec<(u64, u64)> = (0..450).map(|i| (i, i + 1000)).collect();
    let head = store(&mut pager, &mut next_page, &entries);
    assert_eq!(head, Some(12));
    assert_eq!(next_page, 13);
    let pages: Vec<u64> = pager
        .pending()
        .iter()
        .map(|op| match op {
            FileOp::Write(id, _) => *id,
            other => panic!("{other:?}"),
        })
        .collect();
    assert_eq!(pages, vec![10, 11, 12]);
    let mut expected = entries[400..].to_vec();
    expected.extend_from_slice(&entries[200..400]);
    expected.extend_from_slice(&entries[..200]);
    let mut back = load(&pager, head);
    assert_eq!(back, expected);
    back.sort();
    assert_eq!(back, entries);
}

#[test]
fn a_full_chunk_takes_one_page() {
    let mut pager = pager();
    let mut next_page = 2;
    let entries: Vec<(u64, u64)> = (0..200).map(|i| (i, i)).collect();
    assert_eq!(store(&mut pager, &mut next_page, &entries), Some(2));
    assert_eq!(next_page, 3);
    assert_eq!(load(&pager, Some(2)), entries);
}

#[test]
fn a_large_value_is_put_together_from_its_pages() {
    let mut pager = pager();
    let value: Vec<u8> = (0..9000u32).map(|i| i as u8).collect();
    let pieces: Vec<&[u8]> = value.chunks(CHUNK).collect();
    assert_eq!(pieces.len(), 3);
    for (i, piece) in pieces.iter().enumerate() {
        let next = if i + 1 < pieces.len() { Some(6 + i as u64) } else { None };
        let page = encode_page(&OverflowPage { next, data: piece.to_vec() });
        pager.write_page(5 + i as u64, &page);
    }
    assert_eq!(read_chain(&pager, 5, 9000), value);
    assert_eq!(read_chain(&pager, 7, 1000), value[8000..]);
}

#[test]
fn pages_that_are_no_value_are_told_apart() {
    let mut pager = pager();
    pager.write_page(5, &encode_page(&OverflowPage { next: Some(6), data: vec![1] }));
    assert_eq!(try_read_chain(&pager, 5, 2), None);
    pager.write_page(6, &encode_page(&OverflowPage { next: Some(5), data: vec![2] }));
    assert_eq!(try_read_chain(&pager, 5, 2), None, "a chain that runs in a circle");
    pager.write_page(6, &encode_page(&OverflowPage { next: None, data: vec![2] }));
    assert_eq!(try_read_chain(&pager, 5, 2), Some(vec![1, 2]));
    assert_eq!(try_read_chain(&pager, 0, 2), None);
    assert_eq!(try_read_chain(&pager, 99, 2), None);
}

#[test]
fn a_chain_stays_between_its_limits() {
    let mut pager = pager();
    let mut next_page = 3;
    let entries: Vec<(u64, u64)> = (0..300).map(|i| (i, i)).collect();
    let head = store(&mut pager, &mut next_page, &entries);
    assert_eq!(head, Some(4));
    assert!(comes_to_an_end::<FreeListPage>(&pager, head, 3, 5));
    assert!(!comes_to_an_end::<FreeListPage>(&pager, head, 4, 5));
    assert!(!comes_to_an_end::<FreeListPage>(&pager, head, 3, 4));
    assert!(comes_to_an_end::<FreeListPage>(&pager, None, 0, 0));
}
