//! The storage engine as a whole: transactions, snapshots, reopening.

use cics_tx::storage::pager::{FileOp, PAGE_SIZE};
use cics_tx::storage::Environment;

/// A file that changes are carried out on.
struct Disk {
    bytes: Option<Vec<u8>>,
}

impl Disk {
    fn new() -> Disk {
        Disk { bytes: None }
    }

    fn carry_out(&mut self, ops: &[FileOp]) {
        for op in ops {
            let file = self.bytes.get_or_insert_with(Vec::new);
            match op {
                FileOp::SetLen(len) => file.resize(*len as usize, 0),
                FileOp::Write(id, page) => {
                    let start = *id as usize * PAGE_SIZE;
                    if file.len() < start + page.len() {
                        file.resize(start + page.len(), 0);
                    }
                    file[start..start + page.len()].copy_from_slice(page);
                }
                FileOp::Sync => {}
            }
        }
    }
}

fn open(disk: &mut Disk) -> Environment {
    let mut env = Environment::open(disk.bytes.clone()).unwrap();
    flush(&mut env, disk);
    env
}

fn flush(env: &mut Environment, disk: &mut Disk) {
    disk.carry_out(env.pending());
    env.confirm();
}

#[test]
fn put_get_commit_and_reopen_persists() {
    let mut disk = Disk::new();

    {
        let mut env = open(&mut disk);
        let mut wtx = env.begin_write();
        wtx.put(&env, b"alice", b"100");
        wtx.put(&env, b"bob", b"50");
        wtx.commit(&mut env).unwrap();
        flush(&mut env, &mut disk);
    }

    // Opened again: the data must have survived.
    let mut env = open(&mut disk);
    let rtx = env.begin_read();
    assert_eq!(rtx.get(&env, b"alice"), Some(b"100".to_vec()));
    assert_eq!(rtx.get(&env, b"bob"), Some(b"50".to_vec()));
    assert_eq!(rtx.get(&env, b"carol"), None);
}

#[test]
fn rollback_discards_changes() {
    let mut disk = Disk::new();
    let mut env = open(&mut disk);

    {
        let mut wtx = env.begin_write();
        wtx.put(&env, b"x", b"1");
        wtx.commit(&mut env).unwrap();
    }
    {
        let mut wtx = env.begin_write();
        wtx.put(&env, b"x", b"2");
        wtx.put(&env, b"y", b"new");
        wtx.rollback(&mut env);
    }
    let rtx = env.begin_read();
    assert_eq!(rtx.get(&env, b"x"), Some(b"1".to_vec()));
    assert_eq!(rtx.get(&env, b"y"), None);
}

#[test]
fn reader_snapshot_is_isolated_from_concurrent_writer() {
    let mut disk = Disk::new();
    let mut env = open(&mut disk);
    {
        let mut wtx = env.begin_write();
        wtx.put(&env, b"k", b"v1");
        wtx.commit(&mut env).unwrap();
    }

    let rtx = env.begin_read(); // a snapshot before the next write
    {
        let mut wtx = env.begin_write();
        wtx.put(&env, b"k", b"v2");
        wtx.commit(&mut env).unwrap();
    }
    assert_eq!(rtx.get(&env, b"k"), Some(b"v1".to_vec())); // the old snapshot is unaffected
    assert_eq!(env.begin_read().get(&env, b"k"), Some(b"v2".to_vec()));
}

#[test]
fn many_keys_trigger_splits_and_stay_consistent() {
    let mut disk = Disk::new();
    let mut env = open(&mut disk);

    {
        let mut wtx = env.begin_write();
        for i in 0..5000u32 {
            let k = format!("key-{i:06}");
            let v = format!("value-{i}");
            wtx.put(&env, k.as_bytes(), v.as_bytes());
        }
        wtx.commit(&mut env).unwrap();
    }

    let rtx = env.begin_read();
    for i in 0..5000u32 {
        let k = format!("key-{i:06}");
        let v = format!("value-{i}");
        assert_eq!(rtx.get(&env, k.as_bytes()), Some(v.into_bytes()), "key {k}");
    }
    let all = rtx.range(&env, None, None);
    assert_eq!(all.len(), 5000);
    for w in all.windows(2) {
        assert!(w[0].0 < w[1].0, "range() must be sorted");
    }
}

#[test]
fn delete_removes_key() {
    let mut disk = Disk::new();
    let mut env = open(&mut disk);
    {
        let mut wtx = env.begin_write();
        wtx.put(&env, b"a", b"1");
        wtx.put(&env, b"b", b"2");
        assert!(wtx.delete(&env, b"a"));
        assert!(!wtx.delete(&env, b"nonexistent"));
        wtx.commit(&mut env).unwrap();
    }
    let rtx = env.begin_read();
    assert_eq!(rtx.get(&env, b"a"), None);
    assert_eq!(rtx.get(&env, b"b"), Some(b"2".to_vec()));
}
