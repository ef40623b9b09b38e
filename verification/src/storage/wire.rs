//! The byte encoding of what a page holds, and the calls into `bincode` that
//! write and read it.
//!
//! `bincode`'s plain functions use fixed-width little-endian integers, a
//! 64-bit count before the items of a sequence, a 32-bit index before the
//! fields of an enum variant, and one byte before an optional value. The spec
//! functions below say so for the shapes that are stored; the wrappers state
//! what `bincode` does in terms of them.

use vstd::bytes::{spec_u32_to_le_bytes, spec_u64_to_le_bytes};
use vstd::prelude::*;

use super::keys::contents_of;

verus! {

/// A byte string: its length, then its bytes.
pub open spec fn blob(b: Seq<u8>) -> Seq<u8> {
    spec_u64_to_le_bytes(b.len() as u64) + b
}

/// Byte strings one after the other.
pub open spec fn blobs(list: Seq<Seq<u8>>) -> Seq<u8>
    decreases list.len(),
{
    if list.len() == 0 {
        Seq::empty()
    } else {
        blob(list[0]) + blobs(list.skip(1))
    }
}

/// A list of byte strings: its length, then each string.
pub open spec fn blob_list(list: Seq<Seq<u8>>) -> Seq<u8> {
    spec_u64_to_le_bytes(list.len() as u64) + blobs(list)
}

/// Page ids one after the other.
pub open spec fn words(list: Seq<u64>) -> Seq<u8>
    decreases list.len(),
{
    if list.len() == 0 {
        Seq::empty()
    } else {
        spec_u64_to_le_bytes(list[0]) + words(list.skip(1))
    }
}

/// A list of page ids: its length, then each id.
pub open spec fn word_list(list: Seq<u64>) -> Seq<u8> {
    spec_u64_to_le_bytes(list.len() as u64) + words(list)
}

/// Pairs of integers one after the other.
pub open spec fn pairs(list: Seq<(u64, u64)>) -> Seq<u8>
    decreases list.len(),
{
    if list.len() == 0 {
        Seq::empty()
    } else {
        spec_u64_to_le_bytes(list[0].0) + (spec_u64_to_le_bytes(list[0].1) + pairs(list.skip(1)))
    }
}

/// A list of pairs: its length, then each pair.
pub open spec fn pair_list(list: Seq<(u64, u64)>) -> Seq<u8> {
    spec_u64_to_le_bytes(list.len() as u64) + pairs(list)
}

/// An optional page id: a zero byte, or a one byte and the id.
pub open spec fn optional(id: Option<u64>) -> Seq<u8> {
    match id {
        None => seq![0u8],
        Some(id) => seq![1u8] + spec_u64_to_le_bytes(id),
    }
}

/// A leaf's fields behind a variant index.
pub open spec fn leaf_bytes(tag: u32, keys: Seq<Seq<u8>>, values: Seq<Seq<u8>>) -> Seq<u8> {
    spec_u32_to_le_bytes(tag) + (blob_list(keys) + blob_list(values))
}

/// An internal node's fields behind a variant index.
pub open spec fn internal_bytes(tag: u32, keys: Seq<Seq<u8>>, children: Seq<u64>) -> Seq<u8> {
    spec_u32_to_le_bytes(tag) + (blob_list(keys) + word_list(children))
}

/// A meta record's fields in order.
pub open spec fn meta_bytes(
    magic: u32,
    txn_id: u64,
    root: Option<u64>,
    next_page: u64,
    free_list_head: Option<u64>,
) -> Seq<u8> {
    spec_u32_to_le_bytes(magic) + (spec_u64_to_le_bytes(txn_id) + (optional(root) + (
    spec_u64_to_le_bytes(next_page) + optional(free_list_head))))
}

/// A link to the next page of a chain, then a list of pairs.
pub open spec fn linked_pairs_bytes(next: Option<u64>, entries: Seq<(u64, u64)>) -> Seq<u8> {
    optional(next) + pair_list(entries)
}

/// A link to the next page of a chain, then a byte string.
pub open spec fn linked_blob_bytes(next: Option<u64>, data: Seq<u8>) -> Seq<u8> {
    optional(next) + blob(data)
}

// ---------------------------------------------------------------------------
// Lengths
// ---------------------------------------------------------------------------

/// Fixed-width integers take four and eight bytes and determine their value.
pub proof fn lemma_integers()
    ensures
        forall|x: u32| (#[trigger] spec_u32_to_le_bytes(x)).len() == 4,
        forall|x: u64| (#[trigger] spec_u64_to_le_bytes(x)).len() == 8,
        forall|x: u32, y: u32| #[trigger] spec_u32_to_le_bytes(x) == #[trigger] spec_u32_to_le_bytes(y) ==> x == y,
        forall|x: u64, y: u64| #[trigger] spec_u64_to_le_bytes(x) == #[trigger] spec_u64_to_le_bytes(y) ==> x == y,
{
    vstd::bytes::lemma_auto_spec_u32_to_from_le_bytes();
    vstd::bytes::lemma_auto_spec_u64_to_from_le_bytes();
    assert forall|x: u32, y: u32| #[trigger] spec_u32_to_le_bytes(x) == #[trigger] spec_u32_to_le_bytes(y) implies x
        == y by {
        assert(spec_u32_to_le_bytes(x).len() == 4);
        assert(spec_u32_to_le_bytes(y).len() == 4);
    }
}

/// Every string of a list takes at least its eight length bytes and its own
/// bytes, and no more than the longest would.
pub proof fn lemma_blobs_len(list: Seq<Seq<u8>>, longest: nat)
    requires
        forall|i: int| 0 <= i < list.len() ==> (#[trigger] list[i]).len() <= longest,
    ensures
        8 * list.len() <= blobs(list).len() <= list.len() * (8 + longest),
    decreases list.len(),
{
    lemma_integers();
    if list.len() > 0 {
        let rest = list.skip(1);
        assert forall|i: int| 0 <= i < rest.len() implies (#[trigger] rest[i]).len() <= longest by {
            assert(rest[i] == list[i + 1]);
        }
        lemma_blobs_len(rest, longest);
        assert(list[0].len() <= longest);
        assert(list.len() * (8 + longest) == (8 + longest) + rest.len() * (8 + longest)) by (nonlinear_arith)
            requires
                list.len() == rest.len() + 1,
        ;
    }
}

/// A list with one string less does not take more bytes.
pub proof fn lemma_blobs_removed(list: Seq<Seq<u8>>, i: int)
    requires
        0 <= i < list.len(),
    ensures
        blobs(list.remove(i)).len() <= blobs(list).len(),
    decreases list.len(),
{
    if i == 0 {
        assert(list.remove(0) =~= list.skip(1));
    } else {
        lemma_blobs_removed(list.skip(1), i - 1);
        assert(list.remove(i).skip(1) =~= list.skip(1).remove(i - 1));
    }
}

/// Every string of a list takes at least its eight length bytes.
pub proof fn lemma_blobs_at_least(list: Seq<Seq<u8>>)
    ensures
        8 * list.len() <= blobs(list).len(),
    decreases list.len(),
{
    lemma_integers();
    if list.len() > 0 {
        lemma_blobs_at_least(list.skip(1));
    }
}

/// A list of page ids takes eight bytes for each.
pub proof fn lemma_words_len(list: Seq<u64>)
    ensures
        words(list).len() == 8 * list.len(),
    decreases list.len(),
{
    lemma_integers();
    if list.len() > 0 {
        lemma_words_len(list.skip(1));
    }
}

/// A list of pairs takes sixteen bytes for each.
pub proof fn lemma_pairs_len(list: Seq<(u64, u64)>)
    ensures
        pairs(list).len() == 16 * list.len(),
    decreases list.len(),
{
    lemma_integers();
    if list.len() > 0 {
        lemma_pairs_len(list.skip(1));
    }
}

// ---------------------------------------------------------------------------
// What was written can be read in one way only
// ---------------------------------------------------------------------------

proof fn lemma_cut(a: Seq<u8>, b: Seq<u8>, x: Seq<u8>, y: Seq<u8>)
    requires
        a.len() == b.len(),
        a + x == b + y,
    ensures
        a == b,
        x == y,
{
    assert(a =~= (a + x).subrange(0, a.len() as int));
    assert(b =~= (b + y).subrange(0, a.len() as int));
    assert(x =~= (a + x).subrange(a.len() as int, (a + x).len() as int));
    assert(y =~= (b + y).subrange(a.len() as int, (a + x).len() as int));
}

/// Regroups two parts and what follows them.
proof fn lemma_assoc(a: Seq<u8>, b: Seq<u8>, x: Seq<u8>)
    ensures
        (a + b) + x == a + (b + x),
{
    assert((a + b) + x =~= a + (b + x));
}

/// Regroups three parts and what follows them.
proof fn lemma_regroup(a: Seq<u8>, b: Seq<u8>, c: Seq<u8>, x: Seq<u8>)
    ensures
        (a + (b + c)) + x == a + (b + (c + x)),
{
    lemma_assoc(a, b + c, x);
    lemma_assoc(b, c, x);
}

/// Regroups the parts of a meta record and what follows them.
proof fn lemma_regroup_meta(a: Seq<u8>, b: Seq<u8>, c: Seq<u8>, d: Seq<u8>, e: Seq<u8>, x: Seq<u8>)
    ensures
        (a + (b + (c + (d + e)))) + x == a + (b + (c + (d + (e + x)))),
{
    lemma_assoc(a, b + (c + (d + e)), x);
    lemma_assoc(b, c + (d + e), x);
    lemma_assoc(c, d + e, x);
    lemma_assoc(d, e, x);
}

proof fn lemma_u32_reads_once(a: u32, b: u32, x: Seq<u8>, y: Seq<u8>)
    requires
        spec_u32_to_le_bytes(a) + x == spec_u32_to_le_bytes(b) + y,
    ensures
        a == b,
        x == y,
{
    lemma_integers();
    lemma_cut(spec_u32_to_le_bytes(a), spec_u32_to_le_bytes(b), x, y);
}

proof fn lemma_u64_reads_once(a: u64, b: u64, x: Seq<u8>, y: Seq<u8>)
    requires
        spec_u64_to_le_bytes(a) + x == spec_u64_to_le_bytes(b) + y,
    ensures
        a == b,
        x == y,
{
    lemma_integers();
    lemma_cut(spec_u64_to_le_bytes(a), spec_u64_to_le_bytes(b), x, y);
}

proof fn lemma_optional_reads_once(a: Option<u64>, b: Option<u64>, x: Seq<u8>, y: Seq<u8>)
    requires
        optional(a) + x == optional(b) + y,
    ensures
        a == b,
        x == y,
{
    assert((optional(a) + x)[0] == optional(a)[0]);
    assert((optional(b) + y)[0] == optional(b)[0]);
    lemma_integers();
    match (a, b) {
        (Some(i), Some(j)) => {
            lemma_cut(optional(a), optional(b), x, y);
            assert(spec_u64_to_le_bytes(i) =~= optional(a).subrange(1, 9));
            assert(spec_u64_to_le_bytes(j) =~= optional(b).subrange(1, 9));
        },
        (None, None) => {
            lemma_cut(optional(a), optional(b), x, y);
        },
        _ => {
            assert(false);
        },
    }
}

proof fn lemma_blob_reads_once(a: Seq<u8>, b: Seq<u8>, x: Seq<u8>, y: Seq<u8>)
    requires
        blob(a) + x == blob(b) + y,
        (blob(a) + x).len() <= u64::MAX,
    ensures
        a == b,
        x == y,
{
    lemma_integers();
    lemma_assoc(spec_u64_to_le_bytes(a.len() as u64), a, x);
    lemma_assoc(spec_u64_to_le_bytes(b.len() as u64), b, y);
    lemma_u64_reads_once(a.len() as u64, b.len() as u64, a + x, b + y);
    lemma_cut(a, b, x, y);
}

proof fn lemma_blobs_read_once(a: Seq<Seq<u8>>, b: Seq<Seq<u8>>, x: Seq<u8>, y: Seq<u8>)
    requires
        a.len() == b.len(),
        blobs(a) + x == blobs(b) + y,
        (blobs(a) + x).len() <= u64::MAX,
    ensures
        a == b,
        x == y,
    decreases a.len(),
{
    if a.len() == 0 {
        assert(a =~= b);
        assert(blobs(a) + x =~= x);
        assert(blobs(b) + y =~= y);
    } else {
        let ra = a.skip(1);
        let rb = b.skip(1);
        lemma_assoc(blob(a[0]), blobs(ra), x);
        lemma_assoc(blob(b[0]), blobs(rb), y);
        lemma_blob_reads_once(a[0], b[0], blobs(ra) + x, blobs(rb) + y);
        lemma_blobs_read_once(ra, rb, x, y);
        assert(a =~= seq![a[0]] + ra);
        assert(b =~= seq![b[0]] + rb);
    }
}

proof fn lemma_blob_list_reads_once(a: Seq<Seq<u8>>, b: Seq<Seq<u8>>, x: Seq<u8>, y: Seq<u8>)
    requires
        blob_list(a) + x == blob_list(b) + y,
        (blob_list(a) + x).len() <= u64::MAX,
    ensures
        a == b,
        x == y,
{
    lemma_integers();
    lemma_blobs_at_least(a);
    lemma_blobs_at_least(b);
    lemma_assoc(spec_u64_to_le_bytes(a.len() as u64), blobs(a), x);
    lemma_assoc(spec_u64_to_le_bytes(b.len() as u64), blobs(b), y);
    lemma_u64_reads_once(a.len() as u64, b.len() as u64, blobs(a) + x, blobs(b) + y);
    lemma_blobs_read_once(a, b, x, y);
}

proof fn lemma_words_read_once(a: Seq<u64>, b: Seq<u64>, x: Seq<u8>, y: Seq<u8>)
    requires
        a.len() == b.len(),
        words(a) + x == words(b) + y,
    ensures
        a == b,
        x == y,
    decreases a.len(),
{
    if a.len() == 0 {
        assert(a =~= b);
        assert(words(a) + x =~= x);
        assert(words(b) + y =~= y);
    } else {
        let ra = a.skip(1);
        let rb = b.skip(1);
        lemma_assoc(spec_u64_to_le_bytes(a[0]), words(ra), x);
        lemma_assoc(spec_u64_to_le_bytes(b[0]), words(rb), y);
        lemma_u64_reads_once(a[0], b[0], words(ra) + x, words(rb) + y);
        lemma_words_read_once(ra, rb, x, y);
        assert(a =~= seq![a[0]] + ra);
        assert(b =~= seq![b[0]] + rb);
    }
}

proof fn lemma_word_list_reads_once(a: Seq<u64>, b: Seq<u64>, x: Seq<u8>, y: Seq<u8>)
    requires
        word_list(a) + x == word_list(b) + y,
        (word_list(a) + x).len() <= u64::MAX,
    ensures
        a == b,
        x == y,
{
    lemma_integers();
    lemma_words_len(a);
    lemma_words_len(b);
    lemma_assoc(spec_u64_to_le_bytes(a.len() as u64), words(a), x);
    lemma_assoc(spec_u64_to_le_bytes(b.len() as u64), words(b), y);
    lemma_u64_reads_once(a.len() as u64, b.len() as u64, words(a) + x, words(b) + y);
    lemma_words_read_once(a, b, x, y);
}

proof fn lemma_pairs_read_once(a: Seq<(u64, u64)>, b: Seq<(u64, u64)>, x: Seq<u8>, y: Seq<u8>)
    requires
        a.len() == b.len(),
        pairs(a) + x == pairs(b) + y,
    ensures
        a == b,
        x == y,
    decreases a.len(),
{
    if a.len() == 0 {
        assert(a =~= b);
        assert(pairs(a) + x =~= x);
        assert(pairs(b) + y =~= y);
    } else {
        let ra = a.skip(1);
        let rb = b.skip(1);
        lemma_regroup(spec_u64_to_le_bytes(a[0].0), spec_u64_to_le_bytes(a[0].1), pairs(ra), x);
        lemma_regroup(spec_u64_to_le_bytes(b[0].0), spec_u64_to_le_bytes(b[0].1), pairs(rb), y);
        lemma_u64_reads_once(
            a[0].0,
            b[0].0,
            spec_u64_to_le_bytes(a[0].1) + (pairs(ra) + x),
            spec_u64_to_le_bytes(b[0].1) + (pairs(rb) + y),
        );
        lemma_u64_reads_once(a[0].1, b[0].1, pairs(ra) + x, pairs(rb) + y);
        lemma_pairs_read_once(ra, rb, x, y);
        assert(a =~= seq![a[0]] + ra);
        assert(b =~= seq![b[0]] + rb);
    }
}

proof fn lemma_pair_list_reads_once(a: Seq<(u64, u64)>, b: Seq<(u64, u64)>, x: Seq<u8>, y: Seq<u8>)
    requires
        pair_list(a) + x == pair_list(b) + y,
        (pair_list(a) + x).len() <= u64::MAX,
    ensures
        a == b,
        x == y,
{
    lemma_integers();
    lemma_pairs_len(a);
    lemma_pairs_len(b);
    lemma_assoc(spec_u64_to_le_bytes(a.len() as u64), pairs(a), x);
    lemma_assoc(spec_u64_to_le_bytes(b.len() as u64), pairs(b), y);
    lemma_u64_reads_once(a.len() as u64, b.len() as u64, pairs(a) + x, pairs(b) + y);
    lemma_pairs_read_once(a, b, x, y);
}

/// What stands before the rest of a byte string that begins with `p`.
proof fn lemma_prefix_rest(p: Seq<u8>, s: Seq<u8>)
    requires
        p.is_prefix_of(s),
    ensures
        s == p + s.skip(p.len() as int),
{
    assert(s =~= p + s.skip(p.len() as int));
}

/// Two leaves that the same bytes begin with are the same leaf.
pub proof fn leaf_reads_once(
    t: u32,
    k: Seq<Seq<u8>>,
    v: Seq<Seq<u8>>,
    t2: u32,
    k2: Seq<Seq<u8>>,
    v2: Seq<Seq<u8>>,
    s: Seq<u8>,
)
    requires
        leaf_bytes(t, k, v).is_prefix_of(s),
        leaf_bytes(t2, k2, v2).is_prefix_of(s),
        s.len() <= u64::MAX,
    ensures
        t == t2,
        k == k2,
        v == v2,
{
    let x = s.skip(leaf_bytes(t, k, v).len() as int);
    let y = s.skip(leaf_bytes(t2, k2, v2).len() as int);
    lemma_prefix_rest(leaf_bytes(t, k, v), s);
    lemma_prefix_rest(leaf_bytes(t2, k2, v2), s);
    lemma_regroup(spec_u32_to_le_bytes(t), blob_list(k), blob_list(v), x);
    lemma_regroup(spec_u32_to_le_bytes(t2), blob_list(k2), blob_list(v2), y);
    lemma_u32_reads_once(t, t2, blob_list(k) + (blob_list(v) + x), blob_list(k2) + (blob_list(v2) + y));
    lemma_blob_list_reads_once(k, k2, blob_list(v) + x, blob_list(v2) + y);
    lemma_blob_list_reads_once(v, v2, x, y);
}

/// Two internal nodes that the same bytes begin with are the same node.
pub proof fn internal_reads_once(
    t: u32,
    k: Seq<Seq<u8>>,
    c: Seq<u64>,
    t2: u32,
    k2: Seq<Seq<u8>>,
    c2: Seq<u64>,
    s: Seq<u8>,
)
    requires
        internal_bytes(t, k, c).is_prefix_of(s),
        internal_bytes(t2, k2, c2).is_prefix_of(s),
        s.len() <= u64::MAX,
    ensures
        t == t2,
        k == k2,
        c == c2,
{
    let x = s.skip(internal_bytes(t, k, c).len() as int);
    let y = s.skip(internal_bytes(t2, k2, c2).len() as int);
    lemma_prefix_rest(internal_bytes(t, k, c), s);
    lemma_prefix_rest(internal_bytes(t2, k2, c2), s);
    lemma_regroup(spec_u32_to_le_bytes(t), blob_list(k), word_list(c), x);
    lemma_regroup(spec_u32_to_le_bytes(t2), blob_list(k2), word_list(c2), y);
    lemma_u32_reads_once(t, t2, blob_list(k) + (word_list(c) + x), blob_list(k2) + (word_list(c2) + y));
    lemma_blob_list_reads_once(k, k2, word_list(c) + x, word_list(c2) + y);
    lemma_word_list_reads_once(c, c2, x, y);
}

/// Bytes that begin with a variant index begin with no other one.
pub proof fn tag_reads_once(t: u32, x: Seq<u8>, t2: u32, s: Seq<u8>)
    requires
        (spec_u32_to_le_bytes(t) + x).is_prefix_of(s),
        spec_u32_to_le_bytes(t2).is_prefix_of(s),
    ensures
        t == t2,
{
    lemma_integers();
    lemma_prefix_rest(spec_u32_to_le_bytes(t) + x, s);
    lemma_prefix_rest(spec_u32_to_le_bytes(t2), s);
    let rest = s.skip((spec_u32_to_le_bytes(t) + x).len() as int);
    lemma_assoc(spec_u32_to_le_bytes(t), x, rest);
    lemma_u32_reads_once(t, t2, x + rest, s.skip(4));
}

/// Two meta records that the same bytes begin with are the same record.
#[verifier::rlimit(40)]
pub proof fn meta_reads_once(
    m: u32,
    t: u64,
    r: Option<u64>,
    n: u64,
    f: Option<u64>,
    m2: u32,
    t2: u64,
    r2: Option<u64>,
    n2: u64,
    f2: Option<u64>,
    s: Seq<u8>,
)
    requires
        meta_bytes(m, t, r, n, f).is_prefix_of(s),
        meta_bytes(m2, t2, r2, n2, f2).is_prefix_of(s),
    ensures
        m == m2,
        t == t2,
        r == r2,
        n == n2,
        f == f2,
{
    let x = s.skip(meta_bytes(m, t, r, n, f).len() as int);
    let y = s.skip(meta_bytes(m2, t2, r2, n2, f2).len() as int);
    lemma_prefix_rest(meta_bytes(m, t, r, n, f), s);
    lemma_prefix_rest(meta_bytes(m2, t2, r2, n2, f2), s);
    let a4 = optional(f) + x;
    let b4 = optional(f2) + y;
    let a3 = spec_u64_to_le_bytes(n) + a4;
    let b3 = spec_u64_to_le_bytes(n2) + b4;
    let a2 = optional(r) + a3;
    let b2 = optional(r2) + b3;
    let a1 = spec_u64_to_le_bytes(t) + a2;
    let b1 = spec_u64_to_le_bytes(t2) + b2;
    lemma_regroup_meta(
        spec_u32_to_le_bytes(m),
        spec_u64_to_le_bytes(t),
        optional(r),
        spec_u64_to_le_bytes(n),
        optional(f),
        x,
    );
    lemma_regroup_meta(
        spec_u32_to_le_bytes(m2),
        spec_u64_to_le_bytes(t2),
        optional(r2),
        spec_u64_to_le_bytes(n2),
        optional(f2),
        y,
    );
    lemma_u32_reads_once(m, m2, a1, b1);
    lemma_u64_reads_once(t, t2, a2, b2);
    lemma_optional_reads_once(r, r2, a3, b3);
    lemma_u64_reads_once(n, n2, a4, b4);
    lemma_optional_reads_once(f, f2, x, y);
}

/// Two linked lists of pairs that the same bytes begin with are the same.
pub proof fn linked_pairs_read_once(
    n: Option<u64>,
    e: Seq<(u64, u64)>,
    n2: Option<u64>,
    e2: Seq<(u64, u64)>,
    s: Seq<u8>,
)
    requires
        linked_pairs_bytes(n, e).is_prefix_of(s),
        linked_pairs_bytes(n2, e2).is_prefix_of(s),
        s.len() <= u64::MAX,
    ensures
        n == n2,
        e == e2,
{
    let x = s.skip(linked_pairs_bytes(n, e).len() as int);
    let y = s.skip(linked_pairs_bytes(n2, e2).len() as int);
    lemma_prefix_rest(linked_pairs_bytes(n, e), s);
    lemma_prefix_rest(linked_pairs_bytes(n2, e2), s);
    lemma_assoc(optional(n), pair_list(e), x);
    lemma_assoc(optional(n2), pair_list(e2), y);
    lemma_optional_reads_once(n, n2, pair_list(e) + x, pair_list(e2) + y);
    lemma_pair_list_reads_once(e, e2, x, y);
}

/// Two linked byte strings that the same bytes begin with are the same.
pub proof fn linked_blob_reads_once(n: Option<u64>, d: Seq<u8>, n2: Option<u64>, d2: Seq<u8>, s: Seq<u8>)
    requires
        linked_blob_bytes(n, d).is_prefix_of(s),
        linked_blob_bytes(n2, d2).is_prefix_of(s),
        s.len() <= u64::MAX,
    ensures
        n == n2,
        d == d2,
{
    let x = s.skip(linked_blob_bytes(n, d).len() as int);
    let y = s.skip(linked_blob_bytes(n2, d2).len() as int);
    lemma_prefix_rest(linked_blob_bytes(n, d), s);
    lemma_prefix_rest(linked_blob_bytes(n2, d2), s);
    lemma_assoc(optional(n), blob(d), x);
    lemma_assoc(optional(n2), blob(d2), y);
    lemma_optional_reads_once(n, n2, blob(d) + x, blob(d2) + y);
    lemma_blob_reads_once(d, d2, x, y);
}

// ---------------------------------------------------------------------------
// Calls into bincode and crc32fast
// ---------------------------------------------------------------------------

/// The CRC-32 (IEEE) checksum that `crc32fast` computes of a byte string.
pub uninterp spec fn crc32(bytes: Seq<u8>) -> u32;

/// `crc32fast::hash`: the checksum depends on the bytes alone.
#[verifier::external_body]
pub(crate) fn checksum(bytes: &[u8]) -> (r: u32)
    ensures
        r == crc32(bytes@),
{
    crc32fast::hash(bytes)
}

/// `bincode::serialize` of a variant index, a leaf's keys and its values: it
/// succeeds, and yields their encodings one after the other. The encoding has
/// to fit in one allocation.
#[verifier::external_body]
pub(crate) fn serialize_leaf(tag: u32, keys: &Vec<Vec<u8>>, values: &Vec<Vec<u8>>) -> (r: Option<Vec<u8>>)
    requires
        leaf_bytes(tag, contents_of(keys@), contents_of(values@)).len() <= isize::MAX,
    ensures
        r is Some,
        r->0@ == leaf_bytes(tag, contents_of(keys@), contents_of(values@)),
{
    bincode::serialize(&(tag, keys, values)).ok()
}

/// `bincode::serialized_size` of what `serialize_leaf` would write, as long as
/// the size is a 64-bit number.
#[verifier::external_body]
pub(crate) fn leaf_size(tag: u32, keys: &Vec<Vec<u8>>, values: &Vec<Vec<u8>>) -> (r: Option<u64>)
    requires
        leaf_bytes(tag, contents_of(keys@), contents_of(values@)).len() <= u64::MAX,
    ensures
        r == Some(leaf_bytes(tag, contents_of(keys@), contents_of(values@)).len() as u64),
{
    bincode::serialized_size(&(tag, keys, values)).ok()
}

/// `bincode::deserialize` of a variant index and a leaf's two lists: it
/// returns the ones whose encoding the bytes begin with, ignores what follows
/// them, and fails where the bytes begin with no such encoding.
#[verifier::external_body]
pub(crate) fn deserialize_leaf(bytes: &[u8]) -> (r: Option<(u32, Vec<Vec<u8>>, Vec<Vec<u8>>)>)
    ensures
        match r {
            Some(x) => leaf_bytes(x.0, contents_of(x.1@), contents_of(x.2@)).is_prefix_of(bytes@),
            None => forall|t: u32, k: Seq<Seq<u8>>, v: Seq<Seq<u8>>|
                !(#[trigger] leaf_bytes(t, k, v)).is_prefix_of(bytes@),
        },
{
    bincode::deserialize(bytes).ok()
}

/// `bincode::serialize` of a variant index, an internal node's separators and
/// its children: it succeeds, and yields their encodings one after the other.
/// The encoding has to fit in one allocation.
#[verifier::external_body]
pub(crate) fn serialize_internal(tag: u32, keys: &Vec<Vec<u8>>, children: &Vec<u64>) -> (r: Option<Vec<u8>>)
    requires
        internal_bytes(tag, contents_of(keys@), children@).len() <= isize::MAX,
    ensures
        r is Some,
        r->0@ == internal_bytes(tag, contents_of(keys@), children@),
{
    bincode::serialize(&(tag, keys, children)).ok()
}

/// `bincode::serialized_size` of what `serialize_internal` would write, as long
/// as the size is a 64-bit number.
#[verifier::external_body]
pub(crate) fn internal_size(tag: u32, keys: &Vec<Vec<u8>>, children: &Vec<u64>) -> (r: Option<u64>)
    requires
        internal_bytes(tag, contents_of(keys@), children@).len() <= u64::MAX,
    ensures
        r == Some(internal_bytes(tag, contents_of(keys@), children@).len() as u64),
{
    bincode::serialized_size(&(tag, keys, children)).ok()
}

/// `bincode::deserialize` of a variant index and an internal node's two lists:
/// it returns the ones whose encoding the bytes begin with, ignores what
/// follows them, and fails where the bytes begin with no such encoding.
#[verifier::external_body]
pub(crate) fn deserialize_internal(bytes: &[u8]) -> (r: Option<(u32, Vec<Vec<u8>>, Vec<u64>)>)
    ensures
        match r {
            Some(x) => internal_bytes(x.0, contents_of(x.1@), x.2@).is_prefix_of(bytes@),
            None => forall|t: u32, k: Seq<Seq<u8>>, c: Seq<u64>|
                !(#[trigger] internal_bytes(t, k, c)).is_prefix_of(bytes@),
        },
{
    bincode::deserialize(bytes).ok()
}

/// `bincode::deserialize` of a variant index alone: it reads the first four
/// bytes, ignores what follows them, and fails where there are fewer.
#[verifier::external_body]
pub(crate) fn deserialize_tag(bytes: &[u8]) -> (r: Option<u32>)
    ensures
        match r {
            Some(t) => spec_u32_to_le_bytes(t).is_prefix_of(bytes@),
            None => bytes@.len() < 4,
        },
{
    bincode::deserialize(bytes).ok()
}

/// `bincode::serialize` of a meta record's fields: it succeeds, and yields
/// their encodings one after the other.
#[verifier::external_body]
pub(crate) fn serialize_meta(
    magic: u32,
    txn_id: u64,
    root: Option<u64>,
    next_page: u64,
    free_list_head: Option<u64>,
) -> (r: Option<Vec<u8>>)
    ensures
        r is Some,
        r->0@ == meta_bytes(magic, txn_id, root, next_page, free_list_head),
{
    bincode::serialize(&(magic, txn_id, root, next_page, free_list_head)).ok()
}

/// `bincode::deserialize` of a meta record's fields: it returns the ones whose
/// encoding the bytes begin with, ignores what follows them, and fails where
/// the bytes begin with no such encoding.
#[verifier::external_body]
pub(crate) fn deserialize_meta(bytes: &[u8]) -> (r: Option<(u32, u64, Option<u64>, u64, Option<u64>)>)
    ensures
        match r {
            Some(x) => meta_bytes(x.0, x.1, x.2, x.3, x.4).is_prefix_of(bytes@),
            None => forall|m: u32, t: u64, root: Option<u64>, n: u64, f: Option<u64>|
                !(#[trigger] meta_bytes(m, t, root, n, f)).is_prefix_of(bytes@),
        },
{
    bincode::deserialize(bytes).ok()
}

/// `bincode::serialize` of a link and a list of pairs: it succeeds, and yields
/// their encodings one after the other. The encoding has to fit in one
/// allocation.
#[verifier::external_body]
pub(crate) fn serialize_linked_pairs(next: Option<u64>, entries: &Vec<(u64, u64)>) -> (r: Option<Vec<u8>>)
    requires
        linked_pairs_bytes(next, entries@).len() <= isize::MAX,
    ensures
        r is Some,
        r->0@ == linked_pairs_bytes(next, entries@),
{
    bincode::serialize(&(next, entries)).ok()
}

/// `bincode::serialized_size` of what `serialize_linked_pairs` would write, as
/// long as the size is a 64-bit number.
#[verifier::external_body]
pub(crate) fn linked_pairs_size(next: Option<u64>, entries: &Vec<(u64, u64)>) -> (r: Option<u64>)
    requires
        linked_pairs_bytes(next, entries@).len() <= u64::MAX,
    ensures
        r == Some(linked_pairs_bytes(next, entries@).len() as u64),
{
    bincode::serialized_size(&(next, entries)).ok()
}

/// `bincode::deserialize` of a link and a list of pairs: it returns the ones
/// whose encoding the bytes begin with, ignores what follows them, and fails
/// where the bytes begin with no such encoding.
#[verifier::external_body]
pub(crate) fn deserialize_linked_pairs(bytes: &[u8]) -> (r: Option<(Option<u64>, Vec<(u64, u64)>)>)
    ensures
        match r {
            Some(x) => linked_pairs_bytes(x.0, x.1@).is_prefix_of(bytes@),
            None => forall|n: Option<u64>, e: Seq<(u64, u64)>|
                !(#[trigger] linked_pairs_bytes(n, e)).is_prefix_of(bytes@),
        },
{
    bincode::deserialize(bytes).ok()
}

/// `bincode::serialize` of a link and a byte string: it succeeds, and yields
/// their encodings one after the other. The encoding has to fit in one
/// allocation.
#[verifier::external_body]
pub(crate) fn serialize_linked_blob(next: Option<u64>, data: &Vec<u8>) -> (r: Option<Vec<u8>>)
    requires
        linked_blob_bytes(next, data@).len() <= isize::MAX,
    ensures
        r is Some,
        r->0@ == linked_blob_bytes(next, data@),
{
    bincode::serialize(&(next, data)).ok()
}

/// `bincode::serialized_size` of what `serialize_linked_blob` would write, as
/// long as the size is a 64-bit number.
#[verifier::external_body]
pub(crate) fn linked_blob_size(next: Option<u64>, data: &Vec<u8>) -> (r: Option<u64>)
    requires
        linked_blob_bytes(next, data@).len() <= u64::MAX,
    ensures
        r == Some(linked_blob_bytes(next, data@).len() as u64),
{
    bincode::serialized_size(&(next, data)).ok()
}

/// `bincode::deserialize` of a link and a byte string: it returns the ones
/// whose encoding the bytes begin with, ignores what follows them, and fails
/// where the bytes begin with no such encoding.
#[verifier::external_body]
pub(crate) fn deserialize_linked_blob(bytes: &[u8]) -> (r: Option<(Option<u64>, Vec<u8>)>)
    ensures
        match r {
            Some(x) => linked_blob_bytes(x.0, x.1@).is_prefix_of(bytes@),
            None => forall|n: Option<u64>, d: Seq<u8>|
                !(#[trigger] linked_blob_bytes(n, d)).is_prefix_of(bytes@),
        },
{
    bincode::deserialize(bytes).ok()
}

} // verus!
