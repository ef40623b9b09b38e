//! Keys are byte strings in lexicographic order, the order in which the tree
//! keeps them and in which a range comes out.

use vstd::prelude::*;

verus! {

/// The first `i` bytes of `a` and `b` agree, and `a` either ends there while
/// `b` goes on, or has the smaller byte there.
pub open spec fn falls_below_at(a: Seq<u8>, b: Seq<u8>, i: int) -> bool {
    &&& 0 <= i <= a.len()
    &&& i < b.len()
    &&& forall|j: int| 0 <= j < i ==> a[j] == b[j]
    &&& i == a.len() || a[i] < b[i]
}

/// Lexicographic order on byte strings.
pub open spec fn key_lt(a: Seq<u8>, b: Seq<u8>) -> bool {
    exists|i: int| falls_below_at(a, b, i)
}

/// `a` does not come after `b`.
pub open spec fn key_le(a: Seq<u8>, b: Seq<u8>) -> bool {
    !key_lt(b, a)
}

/// Two keys that agree on their first `n` bytes are ordered one way, the other
/// way, or equal.
proof fn lemma_compare_from(a: Seq<u8>, b: Seq<u8>, n: int)
    requires
        0 <= n <= a.len(),
        n <= b.len(),
        forall|j: int| 0 <= j < n ==> a[j] == b[j],
    ensures
        key_lt(a, b) || a == b || key_lt(b, a),
    decreases a.len() - n,
{
    if n == a.len() && n == b.len() {
        assert(a =~= b);
    } else if n == a.len() {
        assert(falls_below_at(a, b, n));
    } else if n == b.len() {
        assert(falls_below_at(b, a, n));
    } else if a[n] < b[n] {
        assert(falls_below_at(a, b, n));
    } else if b[n] < a[n] {
        assert(falls_below_at(b, a, n));
    } else {
        lemma_compare_from(a, b, n + 1);
    }
}

/// Any two keys are comparable: one comes first, or they are the same key.
pub proof fn key_order_is_total(a: Seq<u8>, b: Seq<u8>)
    ensures
        key_lt(a, b) || a == b || key_lt(b, a),
{
    lemma_compare_from(a, b, 0);
}

/// No key comes before itself, nor two keys before each other.
pub proof fn key_order_is_strict(a: Seq<u8>, b: Seq<u8>)
    ensures
        !(key_lt(a, b) && key_lt(b, a)),
        !key_lt(a, a),
{
    if key_lt(a, b) && key_lt(b, a) {
        let i = choose|i: int| falls_below_at(a, b, i);
        let j = choose|j: int| falls_below_at(b, a, j);
        assert(i < j ==> b[i] == a[i]);
        assert(j < i ==> b[j] == a[j]);
    }
    if key_lt(a, a) {
        let i = choose|i: int| falls_below_at(a, a, i);
        assert(false);
    }
}

/// No key comes before the empty one.
pub proof fn the_empty_key_comes_first(a: Seq<u8>)
    ensures
        key_le(Seq::empty(), a),
{
    if key_lt(a, Seq::empty()) {
        let i = choose|i: int| falls_below_at(a, Seq::empty(), i);
        assert(false);
    }
}

/// A key comes before everything that it is the beginning of, and not after it.
pub proof fn a_key_comes_before_its_extensions(key: Seq<u8>, rest: Seq<u8>)
    requires
        rest.len() > 0,
    ensures
        key_lt(key, key + rest),
        !key_lt(key + rest, key),
{
    assert(falls_below_at(key, key + rest, key.len() as int));
    key_order_is_strict(key, key + rest);
}

/// Where two keys first differ, the one with the smaller byte comes first,
/// whatever follows.
pub proof fn the_first_different_byte_decides(common: Seq<u8>, a: u8, x: Seq<u8>, b: u8, y: Seq<u8>)
    requires
        a < b,
    ensures
        key_lt(common + seq![a] + x, common + seq![b] + y),
        !key_lt(common + seq![b] + y, common + seq![a] + x),
{
    let p = common + seq![a] + x;
    let q = common + seq![b] + y;
    let n = common.len() as int;
    assert(p[n] == a && q[n] == b);
    assert forall|j: int| 0 <= j < n implies p[j] == q[j] by {
        assert(p[j] == common[j] && q[j] == common[j]);
    }
    assert(falls_below_at(p, q, n));
    key_order_is_strict(p, q);
}

/// What keys begin with in common does not matter for their order.
pub proof fn a_common_beginning_does_not_matter(common: Seq<u8>, a: Seq<u8>, b: Seq<u8>)
    ensures
        key_lt(common + a, common + b) <==> key_lt(a, b),
{
    let p = common + a;
    let q = common + b;
    let n = common.len() as int;
    if key_lt(a, b) {
        let i = choose|i: int| falls_below_at(a, b, i);
        assert forall|j: int| 0 <= j < n + i implies p[j] == q[j] by {
            if j >= n {
                assert(a[j - n] == b[j - n]);
            }
        }
        assert(falls_below_at(p, q, n + i));
    }
    if key_lt(p, q) {
        let i = choose|i: int| falls_below_at(p, q, i);
        assert(i >= n) by {
            if i < n {
                assert(p[i] == q[i]);
            }
        }
        assert forall|j: int| 0 <= j < i - n implies a[j] == b[j] by {
            assert(p[j + n] == q[j + n]);
        }
        assert(falls_below_at(a, b, i - n));
    }
}

/// One key does not come after another if it comes before it or is the same.
pub proof fn not_after_is_before_or_equal(a: Seq<u8>, b: Seq<u8>)
    ensures
        key_le(a, b) <==> a == b || key_lt(a, b),
{
    key_order_is_total(a, b);
    key_order_is_strict(a, b);
}

/// The key order is transitive.
pub proof fn key_order_is_transitive(a: Seq<u8>, b: Seq<u8>, c: Seq<u8>)
    ensures
        key_lt(a, b) && key_lt(b, c) ==> key_lt(a, c),
        key_le(a, b) && key_lt(b, c) ==> key_lt(a, c),
        key_lt(a, b) && key_le(b, c) ==> key_lt(a, c),
        key_le(a, b) && key_le(b, c) ==> key_le(a, c),
{
    key_order_is_total(a, b);
    key_order_is_total(b, c);
    key_order_is_strict(a, b);
    key_order_is_strict(b, c);
    lemma_chain(a, b, c);
    lemma_chain(c, a, b);
    lemma_chain(b, c, a);
    key_order_is_strict(a, c);
}

proof fn lemma_chain(a: Seq<u8>, b: Seq<u8>, c: Seq<u8>)
    ensures
        key_lt(a, b) && key_lt(b, c) ==> key_lt(a, c),
{
    if key_lt(a, b) && key_lt(b, c) {
        let i = choose|i: int| falls_below_at(a, b, i);
        let j = choose|j: int| falls_below_at(b, c, j);
        let m = if i < j { i } else { j };
        assert forall|t: int| 0 <= t < m implies a[t] == c[t] by {
            assert(a[t] == b[t]);
            assert(b[t] == c[t]);
        }
        if i < j {
            assert(b[i] == c[i]);
        } else if j < i {
            assert(a[j] == b[j]);
        }
        assert(falls_below_at(a, c, m));
    }
}

/// How one key stands to another.
pub enum KeyOrder {
    Less,
    Equal,
    Greater,
}

/// Compares two keys byte by byte.
pub fn compare_keys(a: &[u8], b: &[u8]) -> (r: KeyOrder)
    ensures
        r is Less <==> key_lt(a@, b@),
        r is Equal <==> a@ == b@,
        r is Greater <==> key_lt(b@, a@),
{
    let mut i: usize = 0;
    proof {
        key_order_is_strict(a@, b@);
    }
    while i < a.len() && i < b.len() && a[i] == b[i]
        invariant
            i <= a.len(),
            i <= b.len(),
            forall|j: int| 0 <= j < i ==> a[j] == b[j],
        decreases a.len() - i,
    {
        i += 1;
    }
    if i == a.len() {
        if i == b.len() {
            assert(a@ =~= b@);
            KeyOrder::Equal
        } else {
            assert(falls_below_at(a@, b@, i as int));
            KeyOrder::Less
        }
    } else if i == b.len() {
        assert(falls_below_at(b@, a@, i as int));
        KeyOrder::Greater
    } else if a[i] < b[i] {
        assert(falls_below_at(a@, b@, i as int));
        KeyOrder::Less
    } else {
        assert(falls_below_at(b@, a@, i as int));
        KeyOrder::Greater
    }
}

/// The byte strings that a list of byte vectors holds.
pub open spec fn contents_of(list: Seq<Vec<u8>>) -> Seq<Seq<u8>> {
    list.map_values(|b: Vec<u8>| b@)
}

/// Each key comes before every later one.
pub open spec fn ascending(keys: Seq<Seq<u8>>) -> bool {
    forall|i: int, j: int| 0 <= i < j < keys.len() ==> key_lt(#[trigger] keys[i], #[trigger] keys[j])
}

/// No key comes after a later one.
pub open spec fn nondescending(keys: Seq<Seq<u8>>) -> bool {
    forall|i: int, j: int| 0 <= i < j < keys.len() ==> key_le(#[trigger] keys[i], #[trigger] keys[j])
}

/// The keys before position `i` come before `key`, and no other key does.
pub open spec fn is_place(keys: Seq<Seq<u8>>, key: Seq<u8>, i: int) -> bool {
    &&& 0 <= i <= keys.len()
    &&& forall|j: int| 0 <= j < i ==> key_lt(#[trigger] keys[j], key)
    &&& forall|j: int| i <= j < keys.len() ==> !key_lt(#[trigger] keys[j], key)
}

/// The position of `key` in an ordered list, or the one at which it belongs.
pub open spec fn place_of(keys: Seq<Seq<u8>>, key: Seq<u8>) -> int {
    choose|i: int| is_place(keys, key, i)
}

/// The separators before position `i` do not come after `key`, and all others
/// do.
pub open spec fn is_branch(keys: Seq<Seq<u8>>, key: Seq<u8>, i: int) -> bool {
    &&& 0 <= i <= keys.len()
    &&& forall|j: int| 0 <= j < i ==> key_le(#[trigger] keys[j], key)
    &&& forall|j: int| i <= j < keys.len() ==> key_lt(key, #[trigger] keys[j])
}

/// The child that `key` belongs to, below ordered separators.
pub open spec fn branch_of(keys: Seq<Seq<u8>>, key: Seq<u8>) -> int {
    choose|i: int| is_branch(keys, key, i)
}

/// A key has one place in a list.
pub proof fn a_place_is_the_only_one(keys: Seq<Seq<u8>>, key: Seq<u8>, i: int)
    requires
        is_place(keys, key, i),
    ensures
        place_of(keys, key) == i,
{
    let j = place_of(keys, key);
    assert(is_place(keys, key, j));
    if i < j {
        assert(key_lt(keys[i], key));
    }
    if j < i {
        assert(key_lt(keys[j], key));
    }
}

/// A key belongs to one child.
pub proof fn a_branch_is_the_only_one(keys: Seq<Seq<u8>>, key: Seq<u8>, i: int)
    requires
        is_branch(keys, key, i),
    ensures
        branch_of(keys, key) == i,
{
    let j = branch_of(keys, key);
    assert(is_branch(keys, key, j));
    if i < j {
        assert(key_le(keys[i], key));
    }
    if j < i {
        assert(key_le(keys[j], key));
    }
}

/// In an ordered list every key has a place.
pub proof fn every_key_has_a_place(keys: Seq<Seq<u8>>, key: Seq<u8>)
    requires
        ascending(keys),
    ensures
        is_place(keys, key, place_of(keys, key)),
    decreases keys.len(),
{
    if keys.len() == 0 {
        assert(is_place(keys, key, 0));
    } else {
        let rest = keys.drop_last();
        assert forall|i: int, j: int| 0 <= i < j < rest.len() implies key_lt(#[trigger] rest[i], #[trigger] rest[j]) by {
            assert(rest[i] == keys[i] && rest[j] == keys[j]);
        }
        every_key_has_a_place(rest, key);
        let i = place_of(rest, key);
        if key_lt(keys.last(), key) {
            assert forall|j: int| 0 <= j < keys.len() implies key_lt(#[trigger] keys[j], key) by {
                if j < rest.len() {
                    key_order_is_transitive(keys[j], keys.last(), key);
                }
            }
            assert(is_place(keys, key, keys.len() as int));
        } else {
            assert forall|j: int| 0 <= j < i implies key_lt(#[trigger] keys[j], key) by {
                assert(rest[j] == keys[j]);
            }
            assert forall|j: int| i <= j < keys.len() implies !key_lt(#[trigger] keys[j], key) by {
                if j < rest.len() {
                    assert(rest[j] == keys[j]);
                }
            }
            assert(is_place(keys, key, i));
        }
    }
}

/// Below ordered separators every key belongs to a child.
pub proof fn every_key_has_a_branch(keys: Seq<Seq<u8>>, key: Seq<u8>)
    requires
        nondescending(keys),
    ensures
        is_branch(keys, key, branch_of(keys, key)),
    decreases keys.len(),
{
    if keys.len() == 0 {
        assert(is_branch(keys, key, 0));
    } else {
        let rest = keys.drop_last();
        assert forall|i: int, j: int| 0 <= i < j < rest.len() implies key_le(#[trigger] rest[i], #[trigger] rest[j]) by {
            assert(rest[i] == keys[i] && rest[j] == keys[j]);
        }
        every_key_has_a_branch(rest, key);
        let i = branch_of(rest, key);
        if key_lt(key, keys.last()) {
            assert forall|j: int| 0 <= j < i implies key_le(#[trigger] keys[j], key) by {
                assert(rest[j] == keys[j]);
            }
            assert forall|j: int| i <= j < keys.len() implies key_lt(key, #[trigger] keys[j]) by {
                if j < rest.len() {
                    assert(rest[j] == keys[j]);
                }
            }
            assert(is_branch(keys, key, i));
        } else {
            assert forall|j: int| 0 <= j < keys.len() implies key_le(#[trigger] keys[j], key) by {
                if j < rest.len() {
                    key_order_is_transitive(keys[j], keys.last(), key);
                }
            }
            assert(is_branch(keys, key, keys.len() as int));
        }
    }
}

/// Where `key` stands in a list of distinct, ordered keys: `Ok` with its
/// position, or `Err` with the position at which it would be inserted.
pub fn find_key(keys: &Vec<Vec<u8>>, key: &[u8]) -> (r: Result<usize, usize>)
    requires
        ascending(contents_of(keys@)),
    ensures
        match r {
            Ok(i) => {
                &&& i < keys@.len()
                &&& keys@[i as int]@ == key@
                &&& i == place_of(contents_of(keys@), key@)
            },
            Err(i) => {
                &&& i <= keys@.len()
                &&& i == place_of(contents_of(keys@), key@)
                &&& forall|j: int| 0 <= j < i ==> key_lt(#[trigger] keys@[j]@, key@)
                &&& forall|j: int| i <= j < keys@.len() ==> key_lt(key@, #[trigger] keys@[j]@)
            },
        },
{
    let ghost list = contents_of(keys@);
    let mut lo: usize = 0;
    let mut hi: usize = keys.len();
    while lo < hi
        invariant
            lo <= hi <= keys@.len(),
            list == contents_of(keys@),
            ascending(list),
            forall|j: int| 0 <= j < lo ==> key_lt(#[trigger] list[j], key@),
            forall|j: int| hi <= j < list.len() ==> key_lt(key@, #[trigger] list[j]),
        decreases hi - lo,
    {
        let mid: usize = lo + (hi - lo) / 2;
        assert(list[mid as int] == keys@[mid as int]@);
        match compare_keys(keys[mid].as_slice(), key) {
            KeyOrder::Equal => {
                proof {
                    assert forall|j: int| mid <= j < list.len() implies !key_lt(#[trigger] list[j], key@) by {
                        key_order_is_strict(list[j], key@);
                        if j > mid {
                            assert(key_lt(list[mid as int], list[j]));
                        }
                    }
                    assert(is_place(list, key@, mid as int));
                    a_place_is_the_only_one(list, key@, mid as int);
                }
                return Ok(mid);
            },
            KeyOrder::Less => {
                proof {
                    assert forall|j: int| 0 <= j < mid + 1 implies key_lt(#[trigger] list[j], key@) by {
                        if j < mid {
                            key_order_is_transitive(list[j], list[mid as int], key@);
                        }
                    }
                }
                lo = mid + 1;
            },
            KeyOrder::Greater => {
                proof {
                    assert forall|j: int| mid <= j < list.len() implies key_lt(key@, #[trigger] list[j]) by {
                        if j > mid {
                            key_order_is_transitive(key@, list[mid as int], list[j]);
                        }
                    }
                }
                hi = mid;
            },
        }
    }
    proof {
        assert forall|j: int| 0 <= j < lo implies key_lt(#[trigger] keys@[j]@, key@) by {
            assert(list[j] == keys@[j]@);
        }
        assert forall|j: int| lo <= j < keys@.len() implies key_lt(key@, #[trigger] keys@[j]@) by {
            assert(list[j] == keys@[j]@);
        }
        assert forall|j: int| lo <= j < list.len() implies !key_lt(#[trigger] list[j], key@) by {
            key_order_is_strict(list[j], key@);
        }
        assert(is_place(list, key@, lo as int));
        a_place_is_the_only_one(list, key@, lo as int);
    }
    Err(lo)
}

/// How many separators of an ordered list do not come after `key`, which is the
/// index of the child that `key` belongs to.
pub fn child_index(keys: &Vec<Vec<u8>>, key: &[u8]) -> (r: usize)
    requires
        nondescending(contents_of(keys@)),
    ensures
        r <= keys@.len(),
        r == branch_of(contents_of(keys@), key@),
        forall|j: int| 0 <= j < r ==> key_le(#[trigger] keys@[j]@, key@),
        forall|j: int| r <= j < keys@.len() ==> key_lt(key@, #[trigger] keys@[j]@),
{
    let ghost list = contents_of(keys@);
    let mut lo: usize = 0;
    let mut hi: usize = keys.len();
    while lo < hi
        invariant
            lo <= hi <= keys@.len(),
            list == contents_of(keys@),
            nondescending(list),
            forall|j: int| 0 <= j < lo ==> key_le(#[trigger] list[j], key@),
            forall|j: int| hi <= j < list.len() ==> key_lt(key@, #[trigger] list[j]),
        decreases hi - lo,
    {
        let mid: usize = lo + (hi - lo) / 2;
        assert(list[mid as int] == keys@[mid as int]@);
        proof {
            key_order_is_strict(list[mid as int], key@);
        }
        match compare_keys(key, keys[mid].as_slice()) {
            KeyOrder::Less => {
                proof {
                    assert forall|j: int| mid <= j < list.len() implies key_lt(key@, #[trigger] list[j]) by {
                        if j > mid {
                            key_order_is_transitive(key@, list[mid as int], list[j]);
                        }
                    }
                }
                hi = mid;
            },
            _ => {
                proof {
                    assert forall|j: int| 0 <= j < mid + 1 implies key_le(#[trigger] list[j], key@) by {
                        if j < mid {
                            key_order_is_transitive(list[j], list[mid as int], key@);
                        }
                    }
                }
                lo = mid + 1;
            },
        }
    }
    proof {
        assert forall|j: int| 0 <= j < lo implies key_le(#[trigger] keys@[j]@, key@) by {
            assert(list[j] == keys@[j]@);
        }
        assert forall|j: int| lo <= j < keys@.len() implies key_lt(key@, #[trigger] keys@[j]@) by {
            assert(list[j] == keys@[j]@);
        }
        assert(is_branch(list, key@, lo as int));
        a_branch_is_the_only_one(list, key@, lo as int);
    }
    lo
}

} // verus!
