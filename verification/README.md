# cics-tx

An embedded transactional key/value store, and a small transaction-processing
runtime on top of it: tasks, programs that link to each other, files of records,
and syncpoints. The library is written in Verus: its contracts are proved.

## The store

A copy-on-write B-tree with an atomic swap of the meta page.

- A transaction never changes a page that the last commit refers to. It writes
  new pages, makes them durable, and then publishes one meta page, of which there
  are two that take turns. A crash leaves the store before the commit or the
  store after it; `storage::store` proves that.
- There is one writer at a time. A reader remembers a root, and what it sees
  stays the same whatever the writer does.
- Deleted and replaced pages are not used again, nodes are not merged, and a key
  with its value has to fit in a page when it is committed. Where none of them
  takes more than `RECORD_BUDGET` bytes, a commit never fails for its nodes: one
  that outgrows its page is cut so that every piece goes into a page.
- Opening a file leaves its bytes as they are. How the pages of a tree are
  numbered, and whether its leaves are equally deep, does not matter.

The library does no I/O. It holds the file's bytes and records every change to
them; `pending()` lists the changes, `confirm()` says that the real file has
them, and `revert()` goes back to what it had. `app/` does that with a file.

## The runtime

A `Region` runs tasks. A program gets an `ExecCtx`, through which it links to
other programs, starts tasks, reads and writes records, and takes syncpoints. A
task that returns normally is committed, and one that fails is backed out. A task
whose records are larger than the budget may turn out not to fit; it is backed
out and reported.

## Layout

    src/storage/   keys, tree        key order; what a tree is and holds
                   wire, codec       byte encodings, checksummed pages
                   pager             pages, meta records, recorded changes
                   growth            node sizes, cuts, what a put or delete makes
                   btree             get, range, put, delete
                   chain, freelist, overflow
                   store, check      what a store file is; crashes; soundness
                   txn               Environment, ReadTxn, WriteTxn
    src/runtime/   task, program, file_control, region
    app/           the same on a real file, for several threads; a bank
    tests/
