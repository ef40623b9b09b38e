//! Files, tasks, programs and syncpoints in detail.

use std::sync::{Arc, Mutex};

use cics_tx::runtime::file_control::{storage_key, FileControlTable};
use cics_tx::runtime::program::{step_after, ProgramManager, Step};
use cics_tx::runtime::TaskIdGenerator;
use cics_tx::storage::pager::{FileOp, Meta, MAGIC, PAGE_SIZE};
use cics_tx::storage::Environment;
use cics_tx::{CicsError, CicsProgram, ExecCtx, ProgramOutcome, Region, Result};

type Body = Box<dyn Fn(&mut ExecCtx<Program>) -> Result<ProgramOutcome>>;

struct Program(Body);

impl CicsProgram for Program {
    fn execute(&self, ctx: &mut ExecCtx<Program>) -> Result<ProgramOutcome> {
        (self.0)(ctx)
    }
}

fn program(body: impl Fn(&mut ExecCtx<Program>) -> Result<ProgramOutcome> + 'static) -> Program {
    Program(Box::new(body))
}

fn done() -> Result<ProgramOutcome> {
    Ok(ProgramOutcome::Return { commarea: None })
}

fn run(region: &mut Region<Program>, body: impl Fn(&mut ExecCtx<Program>) -> Result<ProgramOutcome> + 'static) {
    region.define_program("RUN", program(body));
    region.start_task("T", "RUN", None).unwrap();
}

#[test]
fn file_ids_are_counted_from_zero() {
    let mut fct = FileControlTable::new();
    assert!(fct.has_room());
    assert_eq!(fct.define("A"), 0);
    assert_eq!(fct.define("B"), 1);
    assert_eq!(fct.resolve("A").unwrap(), 0);
    assert_eq!(fct.resolve("B").unwrap(), 1);
    assert!(matches!(fct.resolve("C"), Err(CicsError::FileNotFound(name)) if name == "C"));
}

#[test]
fn a_name_defined_again_stands_for_a_new_file() {
    let mut fct = FileControlTable::new();
    fct.define("A");
    fct.define("B");
    assert_eq!(fct.define("A"), 2);
    assert_eq!(fct.resolve("A").unwrap(), 2);
}

#[test]
fn a_record_is_stored_under_the_file_id_and_its_key() {
    assert_eq!(storage_key(0x0102_0304, b"k"), vec![1, 2, 3, 4, b'k']);
    assert_eq!(storage_key(255, b""), vec![0, 0, 0, 255]);
}

#[test]
fn keys_of_files_are_in_the_order_of_the_files() {
    assert!(storage_key(1, &[0xff; 9]) < storage_key(2, b""));
    assert!(storage_key(255, b"z") < storage_key(256, b"a"));
    assert!(storage_key(7, b"a") < storage_key(7, b"aa"));
    assert_ne!(storage_key(1, b"x"), storage_key(2, b"x"));
}

#[test]
fn task_numbers_are_counted_from_one() {
    let mut ids = TaskIdGenerator::new();
    assert_eq!(ids.next(), 1);
    assert_eq!(ids.next(), 2);
}

#[test]
fn programs_are_found_by_name() {
    let mut programs: ProgramManager<u8> = ProgramManager::new();
    programs.define("A", 1);
    programs.define("B", 2);
    assert_eq!(*programs.resolve("A").unwrap(), 1);
    programs.define("A", 3);
    assert_eq!(*programs.resolve("A").unwrap(), 3);
    assert_eq!(*programs.resolve("B").unwrap(), 2);
    assert!(matches!(programs.resolve("C"), Err(CicsError::ProgramNotFound(name)) if name == "C"));
}

#[test]
fn what_follows_from_an_outcome() {
    assert!(matches!(
        step_after(Ok(ProgramOutcome::Return { commarea: Some(vec![1]) })),
        Step::End(Ok(Some(c))) if c == vec![1]
    ));
    assert!(matches!(
        step_after(Ok(ProgramOutcome::Xctl { program: "P".to_string(), commarea: None })),
        Step::Next { program, commarea: None } if program == "P"
    ));
    assert!(matches!(step_after(Err(CicsError::TaskNotFound(4))), Step::End(Err(CicsError::TaskNotFound(4)))));
}

#[test]
fn files_do_not_see_each_other() {
    let mut region = Region::open(None).unwrap();
    region.define_file("A");
    region.define_file("B");
    run(&mut region, |ctx| {
        ctx.write("A", b"k", b"in a")?;
        ctx.write("B", b"k", b"in b")?;
        ctx.write("B", b"l", b"also in b")?;
        assert_eq!(ctx.read("A", b"k")?, b"in a");
        assert_eq!(ctx.read("B", b"k")?, b"in b");
        assert!(matches!(ctx.read("A", b"l"), Err(CicsError::RecordNotFound(k, f)) if k == b"l" && f == "A"));
        assert_eq!(ctx.browse("A", None, 10)?, vec![(b"k".to_vec(), b"in a".to_vec())]);
        assert_eq!(ctx.browse("B", None, 10)?.len(), 2);
        ctx.delete("A", b"k")?;
        assert_eq!(ctx.read("B", b"k")?, b"in b");
        assert!(ctx.browse("A", None, 10)?.is_empty());
        done()
    });
}

#[test]
fn a_browse_starts_and_stops_where_it_is_told() {
    let mut region = Region::open(None).unwrap();
    region.define_file("F");
    region.define_file("G");
    run(&mut region, |ctx| {
        for key in [b"d", b"a", b"c", b"b"] {
            ctx.write("F", key, key)?;
            ctx.write("G", key, b"other")?;
        }
        let keys = |rows: Vec<(Vec<u8>, Vec<u8>)>| rows.into_iter().map(|row| row.0).collect::<Vec<_>>();
        assert_eq!(keys(ctx.browse("F", None, 100)?), vec![b"a", b"b", b"c", b"d"]);
        assert_eq!(keys(ctx.browse("F", Some(b"b"), 2)?), vec![b"b", b"c"]);
        assert_eq!(keys(ctx.browse("F", Some(b"bb"), 100)?), vec![b"c", b"d"]);
        assert!(ctx.browse("F", Some(b"e"), 100)?.is_empty());
        assert!(ctx.browse("F", None, 0)?.is_empty());
        assert!(matches!(ctx.browse("H", None, 1), Err(CicsError::FileNotFound(f)) if f == "H"));
        done()
    });
}

#[test]
fn requests_that_fail_say_why() {
    let mut region = Region::open(None).unwrap();
    region.define_file("F");
    run(&mut region, |ctx| {
        ctx.write("F", b"k", b"v")?;
        assert!(matches!(ctx.write("F", b"k", b"w"), Err(CicsError::DuplicateKey(k, f)) if k == b"k" && f == "F"));
        assert!(matches!(ctx.rewrite("F", b"x", b"w"), Err(CicsError::RecordNotFound(k, f)) if k == b"x" && f == "F"));
        assert!(matches!(ctx.delete("F", b"x"), Err(CicsError::RecordNotFound(k, f)) if k == b"x" && f == "F"));
        assert!(matches!(ctx.write("G", b"k", b"w"), Err(CicsError::FileNotFound(f)) if f == "G"));
        assert!(matches!(ctx.rewrite("G", b"k", b"w"), Err(CicsError::FileNotFound(f)) if f == "G"));
        assert!(matches!(ctx.delete("G", b"k"), Err(CicsError::FileNotFound(f)) if f == "G"));
        assert_eq!(ctx.read("F", b"k")?, b"v");
        done()
    });
}

#[test]
fn programs_know_their_task() {
    let mut region = Region::open(None).unwrap();
    let seen: Arc<Mutex<Vec<(u64, String, u32, Option<Vec<u8>>)>>> = Arc::new(Mutex::new(Vec::new()));
    let note = |seen: &Arc<Mutex<Vec<(u64, String, u32, Option<Vec<u8>>)>>>, ctx: &ExecCtx<Program>| {
        let eib = ctx.eib();
        let commarea = ctx.commarea().map(|c| c.to_vec());
        seen.lock().unwrap().push((eib.task_id, eib.tranid.clone(), eib.link_level, commarea));
    };
    let s = Arc::clone(&seen);
    region.define_program("INNER", program(move |ctx| {
        note(&s, ctx);
        done()
    }));
    let s = Arc::clone(&seen);
    region.define_program("LAST", program(move |ctx| {
        note(&s, ctx);
        done()
    }));
    let s = Arc::clone(&seen);
    region.define_program("OUTER", program(move |ctx| {
        note(&s, ctx);
        ctx.link("INNER", Some(b"down"))?;
        note(&s, ctx);
        ctx.start("SND2", "LAST", Some(b"later"));
        Ok(ProgramOutcome::Xctl { program: "LAST".to_string(), commarea: Some(b"over".to_vec()) })
    }));
    region.start_task("FRST", "OUTER", Some(b"top")).unwrap();
    let first = "FRST".to_string();
    assert_eq!(
        *seen.lock().unwrap(),
        vec![
            (1, first.clone(), 1, Some(b"top".to_vec())),
            (1, first.clone(), 2, Some(b"down".to_vec())),
            (1, first.clone(), 1, Some(b"top".to_vec())),
            (1, first, 1, Some(b"over".to_vec())),
            (2, "SND2".to_string(), 1, Some(b"later".to_vec())),
        ]
    );
    assert_eq!(region.task_count_hint(), 3);
    assert_eq!(region.task_count_hint(), 4);
}

#[test]
fn links_nest_sixty_four_deep() {
    let mut region = Region::open(None).unwrap();
    let deepest = Arc::new(Mutex::new(0u32));
    let d = Arc::clone(&deepest);
    region.define_program("DOWN", program(move |ctx| {
        *d.lock().unwrap() = ctx.eib().link_level;
        match ctx.link("DOWN", None) {
            Err(CicsError::LinkStackOverflow(name)) => {
                assert_eq!(name, "DOWN");
                assert_eq!(ctx.eib().link_level, 64);
                done()
            }
            other => {
                other?;
                done()
            }
        }
    }));
    region.start_task("T", "DOWN", None).unwrap();
    assert_eq!(*deepest.lock().unwrap(), 64);
}

#[test]
fn a_failed_link_can_be_handled() {
    let mut region = Region::open(None).unwrap();
    region.define_file("F");
    run(&mut region, |ctx| {
        ctx.write("F", b"k", b"v")?;
        assert!(matches!(ctx.link("NOWHERE", None), Err(CicsError::ProgramNotFound(name)) if name == "NOWHERE"));
        assert_eq!(ctx.read("F", b"k")?, b"v");
        done()
    });
    run(&mut region, |ctx| {
        assert_eq!(ctx.read("F", b"k")?, b"v");
        done()
    });
}

#[test]
fn a_transfer_to_nowhere_fails_the_task() {
    let mut region = Region::open(None).unwrap();
    region.define_file("F");
    region.define_program("P", program(|ctx| {
        ctx.write("F", b"k", b"v")?;
        Ok(ProgramOutcome::Xctl { program: "NOWHERE".to_string(), commarea: None })
    }));
    let err = region.start_task("T", "P", None).unwrap_err();
    assert!(matches!(err, CicsError::ProgramNotFound(name) if name == "NOWHERE"));
    run(&mut region, |ctx| {
        assert!(ctx.read("F", b"k").is_err());
        done()
    });
}

#[test]
fn a_linked_transfer_returns_to_the_linker() {
    let mut region = Region::open(None).unwrap();
    region.define_program("B", program(|_| Ok(ProgramOutcome::Return { commarea: Some(b"b".to_vec()) })));
    region.define_program("A", program(|_| Ok(ProgramOutcome::Xctl { program: "B".to_string(), commarea: None })));
    run(&mut region, |ctx| {
        assert_eq!(ctx.link("A", None)?, Some(b"b".to_vec()));
        done()
    });
}

#[test]
fn tasks_run_in_the_order_in_which_they_were_asked_for() {
    let mut region = Region::open(None).unwrap();
    let order = Arc::new(Mutex::new(Vec::new()));
    let o = Arc::clone(&order);
    region.define_program("P", program(move |ctx| {
        let tranid = ctx.eib().tranid.clone();
        if tranid == "ONE" {
            ctx.start("TWO", "P", None);
            ctx.start("THREE", "P", None);
        } else if tranid == "TWO" {
            ctx.start("FOUR", "P", None);
        }
        o.lock().unwrap().push(tranid);
        done()
    }));
    region.start_task("ONE", "P", None).unwrap();
    assert_eq!(*order.lock().unwrap(), vec!["ONE", "TWO", "THREE", "FOUR"]);
}

#[test]
fn tasks_asked_for_by_a_task_that_fails_still_run() {
    let mut region = Region::open(None).unwrap();
    region.define_file("F");
    region.define_program("LATER", program(|ctx| {
        ctx.write("F", b"later", b"ran")?;
        done()
    }));
    region.define_program("P", program(|ctx| {
        ctx.start("L", "LATER", None);
        Err(CicsError::InvalidRequest("no".to_string()))
    }));
    assert!(region.start_task("T", "P", None).is_err());
    run(&mut region, |ctx| {
        assert_eq!(ctx.read("F", b"later")?, b"ran");
        done()
    });
}

#[test]
fn tasks_can_be_run_one_at_a_time() {
    let mut region = Region::open(None).unwrap();
    region.define_program("A", program(|_| Ok(ProgramOutcome::Return { commarea: Some(b"a".to_vec()) })));
    assert!(region.run_next().is_none());
    region.submit("T", "A", None);
    region.submit("T", "B", None);
    region.submit("T", "A", None);
    assert_eq!(region.run_next().unwrap().unwrap(), Some(b"a".to_vec()));
    assert!(matches!(region.run_next().unwrap(), Err(CicsError::ProgramNotFound(_))));
    region.clear_queue();
    assert!(region.run_next().is_none());
}

#[test]
fn a_unit_of_work_that_cannot_be_stored_is_refused() {
    let mut region = Region::open(None).unwrap();
    region.define_file("F");
    region.define_program("BIG", program(|ctx| {
        ctx.write("F", &[1u8; 4046], b"")?;
        ctx.syncpoint()?;
        ctx.write("F", &[2u8; 4046], b"")?;
        assert!(matches!(
            ctx.syncpoint(),
            Err(CicsError::InvalidRequest(m)) if m == "the unit of work does not fit in the store"
        ));
        assert_eq!(ctx.read("F", &[2u8; 4046])?, b"");
        done()
    }));
    assert!(matches!(region.start_task("T", "BIG", None), Err(CicsError::InvalidRequest(_))));
    run(&mut region, |ctx| {
        assert_eq!(ctx.read("F", &[1u8; 4046])?, b"");
        assert!(ctx.read("F", &[2u8; 4046]).is_err());
        done()
    });
}

#[test]
fn a_region_opens_again_on_its_file() {
    let mut region = Region::open(None).unwrap();
    region.define_file("F");
    run(&mut region, |ctx| {
        ctx.write("F", b"k", b"v")?;
        done()
    });
    let file = file_after(region.pending());
    region.confirm();
    assert!(region.pending().is_empty());

    assert!(Region::<Program>::open_checked(Some(file.clone())).is_ok());
    let mut again = Region::open(Some(file)).unwrap();
    assert!(again.can_define_file());
    again.define_file("F");
    run(&mut again, |ctx| {
        assert_eq!(ctx.read("F", b"k")?, b"v");
        done()
    });
    match Region::<Program>::open(Some(vec![0u8; 8192])) {
        Err(CicsError::Io(message)) => assert_eq!(message, "no valid meta page found; store file is corrupt"),
        _ => panic!("the file was opened"),
    }
}

#[test]
fn requests_fail_for_their_own_reasons_before_page_ids_run_out() {
    let no_pages = |r: Result<()>| matches!(r, Err(CicsError::InvalidRequest(m)) if m == "the store has no pages left");
    let meta = Meta { magic: MAGIC, txn_id: 1, root: None, next_page: u64::MAX - 4, free_list_head: None };
    let mut file = meta.encode().to_vec();
    file.extend_from_slice(&[0u8; PAGE_SIZE]);
    let mut region = Region::open_checked(Some(file)).unwrap();
    region.define_file("F");
    region.define_program("FILL", program(move |ctx| {
        ctx.write("F", b"k", b"v")?;
        assert!(no_pages(ctx.write("F", b"l", b"w")));
        assert!(no_pages(ctx.rewrite("F", b"k", b"w")));
        assert!(matches!(ctx.write("G", b"l", b"w"), Err(CicsError::FileNotFound(f)) if f == "G"));
        assert!(matches!(ctx.rewrite("G", b"l", b"w"), Err(CicsError::FileNotFound(f)) if f == "G"));
        assert!(matches!(ctx.write("F", b"k", b"w"), Err(CicsError::DuplicateKey(..))));
        assert!(matches!(ctx.rewrite("F", b"l", b"w"), Err(CicsError::RecordNotFound(..))));
        // Every delete takes a page, also one that finds nothing.
        for _ in 0..3 {
            assert!(matches!(ctx.delete("F", b"l"), Err(CicsError::RecordNotFound(..))));
        }
        assert!(no_pages(ctx.delete("F", b"k")));
        assert!(matches!(ctx.delete("F", b"l"), Err(CicsError::RecordNotFound(..))));
        assert!(matches!(ctx.delete("G", b"k"), Err(CicsError::FileNotFound(f)) if f == "G"));
        assert_eq!(ctx.read("F", b"k")?, b"v");
        done()
    }));
    match region.start_task("T", "FILL", None) {
        Err(CicsError::InvalidRequest(message)) => assert_eq!(message, "the unit of work does not fit in the store"),
        _ => panic!("the task was committed"),
    }
}

#[test]
fn a_record_that_no_page_can_hold_is_refused_at_the_end() {
    let mut region = Region::open(None).unwrap();
    region.define_file("F");
    region.define_program("HUGE", program(|ctx| {
        ctx.write("F", b"a", b"1")?;
        ctx.write("F", b"k", &[5u8; 5000])?;
        assert_eq!(ctx.read("F", b"k")?, vec![5u8; 5000]);
        assert_eq!(ctx.browse("F", None, 10)?.len(), 2);
        done()
    }));
    match region.start_task("T", "HUGE", None) {
        Err(CicsError::InvalidRequest(message)) => assert_eq!(message, "the unit of work does not fit in the store"),
        _ => panic!("the task was committed"),
    }
    run(&mut region, |ctx| {
        assert!(matches!(ctx.read("F", b"a"), Err(CicsError::RecordNotFound(..))));
        done()
    });
}

#[test]
fn a_record_that_is_not_stored_may_be_of_any_size() {
    let mut region = Region::open(None).unwrap();
    region.define_file("F");
    run(&mut region, |ctx| {
        ctx.write("F", b"k", b"v")?;
        assert!(matches!(ctx.write("G", b"k", &vec![0u8; 5_000_000]), Err(CicsError::FileNotFound(_))));
        assert!(matches!(ctx.rewrite("G", b"k", &vec![0u8; 5_000_000]), Err(CicsError::FileNotFound(_))));
        assert!(matches!(ctx.write("F", b"k", &vec![0u8; 5_000_000]), Err(CicsError::DuplicateKey(..))));
        assert!(matches!(ctx.rewrite("F", b"l", &vec![0u8; 5_000_000]), Err(CicsError::RecordNotFound(..))));
        done()
    });
}

#[test]
fn a_region_goes_back_to_what_its_file_has() {
    let mut region = Region::open(None).unwrap();
    region.define_file("F");
    run(&mut region, |ctx| {
        ctx.write("F", b"k", b"kept")?;
        done()
    });
    region.confirm();
    run(&mut region, |ctx| {
        ctx.rewrite("F", b"k", b"lost")?;
        done()
    });
    region.revert();
    run(&mut region, |ctx| {
        assert_eq!(ctx.read("F", b"k")?, b"kept");
        done()
    });
}

#[test]
fn a_program_can_see_its_syncpoints_to_the_file() {
    let mut region = Region::open(None).unwrap();
    region.confirm();
    region.define_file("F");
    run(&mut region, |ctx| {
        ctx.write("F", b"k", b"v")?;
        assert!(ctx.pending().is_empty());
        ctx.syncpoint()?;
        assert_eq!(ctx.pending().len(), 4);
        ctx.confirm();
        assert!(ctx.pending().is_empty());
        assert_eq!(ctx.read("F", b"k")?, b"v");
        done()
    });
}

fn file_after(ops: &[FileOp]) -> Vec<u8> {
    let mut file: Vec<u8> = Vec::new();
    for op in ops {
        match op {
            FileOp::SetLen(len) => file.resize(*len as usize, 0),
            FileOp::Write(id, page) => {
                let start = *id as usize * PAGE_SIZE;
                if file.len() < start + page.len() {
                    file.resize(start + page.len(), 0);
                }
                file[start..start + page.len()].copy_from_slice(page);
            }
            FileOp::Sync => {}
        }
    }
    file
}

#[test]
fn keys_that_name_no_file_are_left_alone() {
    let mut env = Environment::open(None).unwrap();
    let mut wtx = env.begin_write();
    wtx.put(&env, b"x", b"short");
    wtx.put(&env, &[0, 0, 1], b"between two files");
    wtx.commit(&mut env).unwrap();
    let mut region = Region::<Program>::open_checked(Some(file_after(env.pending()))).unwrap();
    for i in 0..256u32 {
        assert_eq!(region.define_file(&format!("F{i}")), i);
    }
    run(&mut region, |ctx| {
        ctx.write("F0", b"k", b"v")?;
        assert!(ctx.can_browse("F0", None, 10));
        assert_eq!(ctx.browse("F0", None, 10)?, vec![(b"k".to_vec(), b"v".to_vec())]);
        // A browse of the last file would come across the key behind it.
        assert!(!ctx.can_browse("F255", None, 1));
        ctx.write("F255", b"k", b"w")?;
        assert!(!ctx.can_browse("F255", None, 2));
        assert!(ctx.can_browse("F255", None, 1));
        assert_eq!(ctx.browse("F255", None, 1)?, vec![(b"k".to_vec(), b"w".to_vec())]);
        assert!(ctx.can_browse("F256", None, 10));
        assert!(matches!(ctx.browse("F256", None, 10), Err(CicsError::FileNotFound(_))));
        done()
    });
}

#[test]
fn records_of_some_kilobytes_are_committed_with_their_task() {
    let mut region = Region::open(None).unwrap();
    region.define_file("F");
    run(&mut region, |ctx| {
        ctx.write("F", b"a", &[1u8; 1400])?;
        ctx.write("F", b"c", &[3u8; 1400])?;
        ctx.write("F", b"b", &[2u8; 4000])?;
        ctx.syncpoint()?;
        ctx.rewrite("F", b"a", &[4u8; 4000])?;
        done()
    });
    run(&mut region, |ctx| {
        assert_eq!(ctx.read("F", b"a")?, vec![4u8; 4000]);
        assert_eq!(ctx.read("F", b"b")?, vec![2u8; 4000]);
        assert_eq!(ctx.read("F", b"c")?, vec![3u8; 1400]);
        done()
    });
}

#[test]
fn a_started_task_waits_for_those_before_it() {
    let mut region = Region::open(None).unwrap();
    let seen: Arc<Mutex<Vec<(String, u64)>>> = Arc::new(Mutex::new(Vec::new()));
    let log = Arc::clone(&seen);
    region.define_program("NOTE", program(move |ctx| {
        log.lock().unwrap().push((ctx.eib().tranid.clone(), ctx.eib().task_id));
        if ctx.eib().tranid == "B" {
            ctx.start("D", "NOTE", None);
        }
        done()
    }));
    region.define_program("MAIN", program(|ctx| {
        ctx.start("B", "NOTE", None);
        ctx.start("C", "NOTE", None);
        done()
    }));
    region.start_task("A", "MAIN", None).unwrap();
    let expected: Vec<(String, u64)> = vec![("B".to_string(), 2), ("C".to_string(), 3), ("D".to_string(), 4)];
    assert_eq!(*seen.lock().unwrap(), expected);
}
