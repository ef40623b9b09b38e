//! Transactions: what commits, what is discarded, and what a crash leaves.

use cics_tx::storage::btree::{encode_node, Node};
use cics_tx::storage::check::is_sound;
use cics_tx::storage::codec::{decode_page, encode_page};
use cics_tx::storage::freelist::FreeListPage;
use cics_tx::storage::growth::RECORD_BUDGET;
use cics_tx::storage::pager::{FileOp, Meta, MAGIC, PAGE_SIZE};
use cics_tx::storage::{Environment, ReadTxn};
use cics_tx::CicsError;

fn carry_out(file: &mut Vec<u8>, ops: &[FileOp]) {
    for op in ops {
        match op {
            FileOp::SetLen(len) => file.resize(*len as usize, 0),
            FileOp::Write(id, page) => {
                let start = *id as usize * PAGE_SIZE;
                if file.len() < start + page.len() {
                    file.resize(start + page.len(), 0);
                }
                file[start..start + page.len()].copy_from_slice(page);
            }
            FileOp::Sync => {}
        }
    }
}

fn new_env() -> (Environment, Vec<u8>) {
    let mut env = Environment::open(None).unwrap();
    let mut file = Vec::new();
    carry_out(&mut file, env.pending());
    env.confirm();
    (env, file)
}

fn set(env: &mut Environment, key: &[u8], value: &[u8]) {
    let mut wtx = env.begin_write();
    assert!(wtx.has_room(env, key));
    wtx.put(env, key, value);
    assert!(wtx.fits(env));
    wtx.commit(env).unwrap();
}

fn value(file: &[u8], key: &[u8]) -> Option<Vec<u8>> {
    let mut env = Environment::open(Some(file.to_vec())).unwrap();
    env.begin_read().get(&env, key)
}

#[test]
fn a_writer_sees_its_own_changes_and_nobody_else_does() {
    let (mut env, _) = new_env();
    set(&mut env, b"a", b"1");
    let mut wtx = env.begin_write();
    wtx.put(&env, b"a", b"2");
    wtx.put(&env, b"b", b"3");
    assert_eq!(wtx.get(&env, b"a"), Some(b"2".to_vec()));
    assert_eq!(wtx.range(&env, None, None).len(), 2);
    let rtx = env.begin_read();
    assert_eq!(rtx.get(&env, b"a"), Some(b"1".to_vec()));
    assert_eq!(rtx.range(&env, None, None), vec![(b"a".to_vec(), b"1".to_vec())]);
    wtx.rollback(&mut env);
    assert_eq!(env.begin_read().get(&env, b"a"), Some(b"1".to_vec()));
}

#[test]
fn snapshots_outlive_many_commits() {
    let (mut env, _) = new_env();
    let mut snapshots: Vec<ReadTxn> = Vec::new();
    for i in 0..20u8 {
        snapshots.push(env.begin_read());
        set(&mut env, b"k", &[i]);
    }
    assert_eq!(snapshots[0].get(&env, b"k"), None);
    for i in 1..20u8 {
        assert_eq!(snapshots[i as usize].get(&env, b"k"), Some(vec![i - 1]));
    }
    for snapshot in snapshots {
        snapshot.end(&mut env);
    }
    assert_eq!(env.begin_read().get(&env, b"k"), Some(vec![19]));
}

#[test]
fn a_commit_writes_new_pages_then_syncs_then_publishes() {
    let (mut env, _) = new_env();
    set(&mut env, b"a", b"1");
    let ops = env.pending();
    assert_eq!(ops.len(), 4);
    assert!(matches!(&ops[0], FileOp::Write(2, _)));
    assert!(matches!(&ops[1], FileOp::Sync));
    assert!(matches!(&ops[2], FileOp::Write(1, _)));
    assert!(matches!(&ops[3], FileOp::Sync));
}

#[test]
fn every_page_that_a_transaction_took_is_written() {
    let (mut env, _) = new_env();
    let mut wtx = env.begin_write();
    wtx.put(&env, b"a", b"1");
    wtx.put(&env, b"b", b"2");
    wtx.delete(&env, b"a");
    wtx.commit(&mut env).unwrap();
    let pages: Vec<u64> = env
        .pending()
        .iter()
        .filter_map(|op| match op {
            FileOp::Write(id, _) => Some(*id),
            _ => None,
        })
        .collect();
    assert_eq!(pages, vec![2, 3, 4, 1]);
}

#[test]
fn carrying_out_the_changes_of_several_commits_keeps_the_last() {
    let (mut env, mut file) = new_env();
    set(&mut env, b"a", b"1");
    set(&mut env, b"a", b"2");
    set(&mut env, b"b", b"3");
    carry_out(&mut file, env.pending());
    assert_eq!(value(&file, b"a"), Some(b"2".to_vec()));
    assert_eq!(value(&file, b"b"), Some(b"3".to_vec()));
}

#[test]
fn a_crash_leaves_the_commit_before_or_the_commit() {
    let (mut env, mut file) = new_env();
    set(&mut env, b"k", b"old");
    carry_out(&mut file, env.pending());
    env.confirm();
    set(&mut env, b"k", b"new");
    let ops = env.pending();
    for n in 0..=ops.len() {
        let mut left = file.clone();
        carry_out(&mut left, &ops[..n]);
        let expected: &[u8] = if n <= 2 { b"old" } else { b"new" };
        assert_eq!(value(&left, b"k"), Some(expected.to_vec()), "after {n} changes");
    }
}

#[test]
fn a_torn_data_page_does_no_harm_before_the_record_is_written() {
    let (mut env, mut file) = new_env();
    set(&mut env, b"k", b"old");
    carry_out(&mut file, env.pending());
    env.confirm();
    set(&mut env, b"k", b"new");
    let mut left = file.clone();
    carry_out(&mut left, &env.pending()[..1]);
    let at = left.len() - PAGE_SIZE;
    for b in &mut left[at + 5..] {
        *b = 0xaa;
    }
    assert_eq!(value(&left, b"k"), Some(b"old".to_vec()));
}

#[test]
fn a_torn_record_leaves_the_commit_before() {
    let (mut env, mut file) = new_env();
    set(&mut env, b"k", b"old");
    carry_out(&mut file, env.pending());
    env.confirm();
    set(&mut env, b"k", b"new");
    let mut left = file.clone();
    carry_out(&mut left, env.pending());
    // The second commit's record went to slot zero.
    for b in &mut left[10..PAGE_SIZE] {
        *b = 0;
    }
    assert_eq!(value(&left, b"k"), Some(b"old".to_vec()));
}

#[test]
fn reverting_forgets_what_the_file_did_not_get() {
    let (mut env, mut file) = new_env();
    set(&mut env, b"k", b"kept");
    carry_out(&mut file, env.pending());
    env.confirm();
    set(&mut env, b"k", b"lost");
    set(&mut env, b"other", b"lost");
    env.revert();
    assert!(env.pending().is_empty());
    assert_eq!(env.begin_read().get(&env, b"k"), Some(b"kept".to_vec()));
    assert_eq!(env.begin_read().get(&env, b"other"), None);
    set(&mut env, b"k", b"again");
    carry_out(&mut file, env.pending());
    assert_eq!(value(&file, b"k"), Some(b"again".to_vec()));
}

#[test]
fn a_node_that_no_page_can_hold_does_not_fit() {
    let (mut env, _) = new_env();
    let mut wtx = env.begin_write();
    wtx.put(&env, &[1u8; 4050], b"");
    assert!(wtx.fits(&env));
    // The second key is too long for a separator.
    wtx.put(&env, &[2u8; 4050], b"");
    assert!(!wtx.fits(&env));
    assert_eq!(wtx.get(&env, &[2u8; 4050]), Some(Vec::new()));
    wtx.rollback(&mut env);
    assert_eq!(env.begin_read().range(&env, None, None), Vec::new());
}

#[test]
fn the_longest_separator_fits() {
    let (mut env, mut file) = new_env();
    set(&mut env, &[1u8; RECORD_BUDGET], b"");
    set(&mut env, &[2u8; RECORD_BUDGET], b"");
    carry_out(&mut file, env.pending());
    assert!(is_sound(&file));
    assert_eq!(value(&file, &[2u8; RECORD_BUDGET]), Some(Vec::new()));
}

#[test]
fn three_records_of_some_kilobytes_are_committed() {
    let (mut env, mut file) = new_env();
    let mut wtx = env.begin_write();
    wtx.put(&env, b"a", &[1u8; 1400]);
    wtx.put(&env, b"b", &[2u8; 1400]);
    wtx.put(&env, b"c", &[3u8; 2900]);
    assert!(wtx.fits(&env));
    wtx.commit(&mut env).unwrap();
    carry_out(&mut file, env.pending());
    assert_eq!(value(&file, b"b"), Some(vec![2u8; 1400]));
    assert_eq!(value(&file, b"c"), Some(vec![3u8; 2900]));
}

#[test]
fn what_is_within_the_budget_can_be_committed() {
    let (mut env, mut file) = new_env();
    let mut x: u32 = 7;
    for _ in 0..60 {
        let mut wtx = env.begin_write();
        for _ in 0..5 {
            x = x.wrapping_mul(1664525).wrapping_add(1013904223);
            let key = vec![(x >> 11) as u8; 1 + (x >> 16) as usize % 2000];
            if x % 4 == 0 {
                wtx.delete(&env, &key);
            } else {
                wtx.put(&env, &key, &vec![9u8; (x >> 5) as usize % (RECORD_BUDGET - key.len() + 1)]);
            }
        }
        assert!(wtx.fits(&env));
        wtx.commit(&mut env).unwrap();
    }
    carry_out(&mut file, env.pending());
    assert!(is_sound(&file));
}

#[test]
fn a_file_that_ends_after_its_first_meta_page_is_opened() {
    let (mut env, mut file) = new_env();
    // The first commit writes its record to the second meta page.
    set(&mut env, b"k", b"v");
    carry_out(&mut file, env.pending());
    assert_eq!(value(&file, b"k"), Some(b"v".to_vec()));
    for len in [PAGE_SIZE, PAGE_SIZE + 100, 2 * PAGE_SIZE - 1] {
        let mut short = file[..len].to_vec();
        assert!(is_sound(&short));
        let mut env = Environment::open_checked(Some(short.clone())).unwrap();
        assert_eq!(env.begin_read().range(&env, None, None), Vec::new());
        // Nothing is written to the file before the first commit.
        assert!(env.pending().is_empty());
        let wtx = env.begin_write();
        wtx.rollback(&mut env);
        assert!(env.pending().is_empty());
        // A commit that the file does not get leaves it as it was.
        set(&mut env, b"k", b"lost");
        env.revert();
        assert!(env.pending().is_empty());
        assert_eq!(env.begin_read().range(&env, None, None), Vec::new());
        set(&mut env, b"k", b"w");
        match &env.pending()[..] {
            [FileOp::Write(2, _), FileOp::Sync, FileOp::Write(1, record), FileOp::Sync] => {
                let record = Meta::decode(record[..].try_into().unwrap()).unwrap();
                assert_eq!((record.txn_id, record.root, record.next_page), (1, Some(2), 3));
            }
            other => panic!("{other:?}"),
        }
        carry_out(&mut short, env.pending());
        env.confirm();
        assert_eq!(value(&short, b"k"), Some(b"w".to_vec()));
        set(&mut env, b"k", b"lost");
        env.revert();
        assert_eq!(env.begin_read().get(&env, b"k"), Some(b"w".to_vec()));
    }
    assert!(!is_sound(&file[..PAGE_SIZE - 1].to_vec()));
}

#[test]
fn opening_a_file_leaves_it_as_it_is() {
    let (mut env, mut file) = new_env();
    set(&mut env, b"k", b"v");
    carry_out(&mut file, env.pending());
    // A few bytes behind the last page stay too.
    file.extend_from_slice(b"rest");
    let env = Environment::open(Some(file.clone())).unwrap();
    assert!(env.pending().is_empty());
    let env = Environment::open_checked(Some(file)).unwrap();
    assert!(env.pending().is_empty());
}

#[test]
fn the_largest_entry_fits() {
    let (mut env, mut file) = new_env();
    set(&mut env, b"k", &[7u8; 4055]);
    carry_out(&mut file, env.pending());
    assert_eq!(value(&file, b"k"), Some(vec![7u8; 4055]));
}

#[test]
fn a_corrupt_file_is_refused() {
    for len in [0, 100, 4096, 8192] {
        let file = vec![0u8; len];
        assert!(!is_sound(&file));
        for opened in [Environment::open(Some(file.clone())), Environment::open_checked(Some(file))] {
            match opened {
                Err(CicsError::Io(message)) => assert_eq!(message, "no valid meta page found; store file is corrupt"),
                _ => panic!("{len}"),
            }
        }
    }
}

#[test]
fn an_empty_commit_advances_the_record() {
    let (mut env, mut file) = new_env();
    let wtx = env.begin_write();
    wtx.commit(&mut env).unwrap();
    assert_eq!(env.pending().len(), 3);
    carry_out(&mut file, env.pending());
    assert_eq!(value(&file, b"k"), None);
}

#[test]
fn deleting_everything_empties_the_store() {
    let (mut env, mut file) = new_env();
    set(&mut env, b"a", b"1");
    let mut wtx = env.begin_write();
    assert!(wtx.delete(&env, b"a"));
    assert!(!wtx.delete(&env, b"a"));
    wtx.commit(&mut env).unwrap();
    carry_out(&mut file, env.pending());
    assert_eq!(value(&file, b"a"), None);
}

/// A file whose latest commit has this root and these nodes, from page two on.
fn file_of(root: u64, nodes: &[Node], free_list_head: Option<u64>) -> Vec<u8> {
    let meta = Meta { magic: MAGIC, txn_id: 1, root: Some(root), next_page: 2 + nodes.len() as u64, free_list_head };
    let mut file = meta.encode().to_vec();
    file.extend_from_slice(&[0u8; PAGE_SIZE]);
    for node in nodes {
        file.extend_from_slice(&encode_node(node));
    }
    file
}

fn leaf(keys: &[&[u8]]) -> Node {
    Node::Leaf { keys: keys.iter().map(|k| k.to_vec()).collect(), values: keys.iter().map(|k| k.to_vec()).collect() }
}

#[test]
fn a_store_that_was_committed_is_sound() {
    let (mut env, mut file) = new_env();
    assert!(is_sound(&file));
    let mut wtx = env.begin_write();
    for i in 0..500u32 {
        wtx.put(&env, &i.to_be_bytes(), &[7u8; 100]);
    }
    wtx.commit(&mut env).unwrap();
    carry_out(&mut file, env.pending());
    assert!(is_sound(&file));
    let mut again = Environment::open_checked(Some(file)).unwrap();
    assert_eq!(again.begin_read().range(&again, None, None).len(), 500);
}

#[test]
fn a_store_by_hand_is_sound() {
    let nodes = [leaf(&[b"a"]), leaf(&[b"m", b"n"]), Node::Internal { keys: vec![b"m".to_vec()], children: vec![2, 3] }];
    let file = file_of(4, &nodes, None);
    assert!(is_sound(&file));
    assert_eq!(value(&file, b"n"), Some(b"n".to_vec()));
}

#[test]
fn what_is_not_a_store_is_refused() {
    let bad: Vec<Vec<u8>> = vec![
        // keys out of order
        file_of(2, &[leaf(&[b"b", b"a"])], None),
        // a key twice
        file_of(2, &[leaf(&[b"a", b"a"])], None),
        // fewer values than keys
        file_of(2, &[Node::Leaf { keys: vec![b"a".to_vec()], values: vec![] }], None),
        // a root beyond the pages in use
        file_of(3, &[leaf(&[b"a"])], None),
        // a root on a meta page
        file_of(1, &[leaf(&[b"a"])], None),
        // a node that is its own child
        file_of(2, &[Node::Internal { keys: vec![], children: vec![2] }], None),
        // a key on the wrong side of its separator
        file_of(4, &[leaf(&[b"z"]), leaf(&[b"m"]), Node::Internal { keys: vec![b"m".to_vec()], children: vec![2, 3] }], None),
        // two nodes that are each other's child
        file_of(
            2,
            &[Node::Internal { keys: vec![], children: vec![3] }, Node::Internal { keys: vec![], children: vec![2] }],
            None,
        ),
        // a child on a meta page
        file_of(2, &[Node::Internal { keys: vec![], children: vec![1] }], None),
        // a free list that is not there
        file_of(2, &[leaf(&[b"a"])], Some(2)),
    ];
    for (i, file) in bad.into_iter().enumerate() {
        assert!(!is_sound(&file), "case {i}");
        match Environment::open_checked(Some(file)) {
            Err(CicsError::Io(message)) => assert_eq!(message, "the store file is corrupt", "case {i}"),
            _ => panic!("case {i}"),
        }
    }
}

#[test]
fn pages_can_be_in_any_order() {
    let nodes = [Node::Internal { keys: vec![b"m".to_vec()], children: vec![4, 3] }, leaf(&[b"m", b"n"]), leaf(&[b"a"])];
    let mut file = file_of(2, &nodes, None);
    assert!(is_sound(&file));
    let mut env = Environment::open_checked(Some(file.clone())).unwrap();
    set(&mut env, b"b", b"new");
    let mut wtx = env.begin_write();
    assert!(wtx.has_room_to_delete(&env, b"m"));
    assert!(wtx.delete(&env, b"m"));
    wtx.commit(&mut env).unwrap();
    carry_out(&mut file, env.pending());
    assert!(is_sound(&file));
    for (key, expected) in [(b"a", Some(b"a".to_vec())), (b"b", Some(b"new".to_vec())), (b"m", None), (b"n", Some(b"n".to_vec()))] {
        assert_eq!(value(&file, key), expected);
    }
}

#[test]
fn leaves_can_be_at_different_depths() {
    let nodes = [
        leaf(&[b"a"]),
        leaf(&[b"m"]),
        Node::Internal { keys: vec![], children: vec![3] },
        Node::Internal { keys: vec![b"m".to_vec()], children: vec![2, 4] },
    ];
    let mut file = file_of(5, &nodes, None);
    assert!(is_sound(&file));
    let mut env = Environment::open_checked(Some(file.clone())).unwrap();
    set(&mut env, b"b", b"short path");
    set(&mut env, b"n", b"long path");
    assert_eq!(env.begin_read().range(&env, None, None).len(), 4);
    carry_out(&mut file, env.pending());
    assert!(is_sound(&file));
    assert_eq!(value(&file, b"n"), Some(b"long path".to_vec()));
}

#[test]
fn page_ids_run_out() {
    for (left, room) in [(0, false), (2, false), (3, true), (4, true)] {
        let meta = Meta { magic: MAGIC, txn_id: 1, root: None, next_page: u64::MAX - left, free_list_head: None };
        let mut file = meta.encode().to_vec();
        file.extend_from_slice(&[0u8; PAGE_SIZE]);
        let mut env = Environment::open_checked(Some(file)).unwrap();
        let mut wtx = env.begin_write();
        assert_eq!(wtx.has_room(&env, b"k"), room);
        assert!(wtx.has_room_to_delete(&env, b"k"));
        if room {
            wtx.put(&env, b"k", b"v");
            assert_eq!(wtx.get(&env, b"k"), Some(b"v".to_vec()));
            assert!(!wtx.fits(&env));
            assert!(!wtx.has_room(&env, b"k"));
            assert!(wtx.has_room_to_delete(&env, b"k"));
            assert!(wtx.delete(&env, b"k"));
        }
        assert_eq!(wtx.get(&env, b"k"), None);
        wtx.rollback(&mut env);
    }
}

#[test]
fn a_new_store_can_be_opened_either_way() {
    let env = Environment::open_checked(None).unwrap();
    assert_eq!(env.pending().len(), 5);
}

#[test]
fn a_commit_carries_the_free_list_on() {
    let meta = Meta { magic: MAGIC, txn_id: 4, root: None, next_page: 3, free_list_head: Some(2) };
    let mut file = meta.encode().to_vec();
    file.extend_from_slice(&[0u8; PAGE_SIZE]);
    file.extend_from_slice(&encode_page(&FreeListPage { next: None, entries: vec![(1, 9), (3, 8)] }));
    let mut env = Environment::open_checked(Some(file.clone())).unwrap();
    let mut wtx = env.begin_write();
    wtx.put(&env, b"k", b"v");
    assert!(wtx.fits(&env));
    wtx.commit(&mut env).unwrap();
    match &env.pending()[..] {
        [FileOp::Write(3, _), FileOp::Write(4, page), FileOp::Sync, FileOp::Write(1, record), FileOp::Sync] => {
            let list: FreeListPage = decode_page(page[..].try_into().unwrap()).unwrap();
            assert_eq!((list.next, list.entries), (None, vec![(1, 9), (3, 8)]));
            let record = Meta::decode(record[..].try_into().unwrap()).unwrap();
            assert_eq!((record.txn_id, record.root, record.next_page), (5, Some(3), 5));
            assert_eq!(record.free_list_head, Some(4));
        }
        other => panic!("{other:?}"),
    }
    carry_out(&mut file, env.pending());
    assert_eq!(value(&file, b"k"), Some(b"v".to_vec()));
}

#[test]
fn deleting_keeps_a_transaction_storable() {
    let (mut env, _) = new_env();
    let mut wtx = env.begin_write();
    for i in 0..300u32 {
        wtx.put(&env, &i.to_be_bytes(), &[1u8; 50]);
    }
    assert!(wtx.fits(&env));
    for i in (0..300u32).step_by(3) {
        assert!(wtx.delete(&env, &i.to_be_bytes()));
    }
    assert!(wtx.fits(&env));
    wtx.commit(&mut env).unwrap();
    assert_eq!(env.begin_read().range(&env, None, None).len(), 200);
}
