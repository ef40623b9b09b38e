//! A copy-on-write B-tree. Every node that changes gets a new page id; nodes
//! reachable from a committed root are never changed in place. That rule makes
//! a snapshot as cheap as remembering a root id, and a commit as atomic as
//! swapping one meta record.
//!
//! Deletes do not merge or rebalance nodes.

use std::collections::HashMap;

use vstd::bytes::spec_u32_to_le_bytes;
use vstd::prelude::*;

use super::codec::{
    decode_page, encode_page, encoded_len, page_for, record_in, PageRecord, CHECKSUM_SIZE, PAGE_CAPACITY,
};
use super::growth::{
    a_delete_removes_the_key, a_put_stores_the_pair, a_put_within_the_budget_fits, all_go_into_pages, cut_fits, cuts,
    delete_in, delete_under, goes_into_a_page, internal_with, is_paired, keys_of, leaf_with, leaf_without,
    lemma_branch, lemma_delete_in, lemma_internal_len, lemma_internal_with, lemma_leaf_holds, lemma_leaf_len,
    lemma_leaf_with, lemma_leaf_without, lemma_no_keys_is_small, lemma_piece_size, lemma_put_in, lemma_steps, node_size,
    past, path_len, piece, pieces, put_in, put_under, settled, steps, under_one_root, within_budget, Grown,
    RECORD_BUDGET,
};
use super::keys::{
    ascending, child_index, compare_keys, contents_of, find_key, key_le, key_lt, key_order_is_strict,
    the_empty_key_comes_first, KeyOrder,
};
use super::pager::{has_page, page_at, PageId, Pager, META_PAGE_COUNT, PAGE_SIZE};
use super::tree::{
    a_leaf_holds_its_entries, after_delete, an_internal_node_holds_what_its_children_hold, contents,
    contents_are_the_pairs, depth_of, entry_fits, family_has, fence_above, fence_below, has, height, holds_pair,
    in_bounds, in_key_order, is_even, is_store, is_tree, leaf_has, lemma_descent, lemma_next_child_follows,
    lemma_tree_at, lists, lists_children, lists_tree, page_ids, sized, spliced_children, spliced_keys, within, Nodes,
    Row, MAX_ENTRY, MAX_KEYS,
};
use super::wire::{
    blob_list, deserialize_internal, deserialize_leaf, deserialize_tag, internal_bytes, internal_reads_once,
    internal_size, leaf_bytes, leaf_reads_once, leaf_size, lemma_integers,
    serialize_internal, serialize_leaf, tag_reads_once, word_list,
};

verus! {

broadcast use vstd::std_specs::hash::group_hash_axioms;

/// A node whose page would take more bytes than this is split.
pub const SPLIT_THRESHOLD: usize = 3072;

/// Variant index of a leaf in a page.
const LEAF_TAG: u32 = 0;

/// Variant index of an internal node in a page.
const INTERNAL_TAG: u32 = 1;

/// A node of the tree.
#[derive(Debug)]
pub enum Node {
    Leaf { keys: Vec<Vec<u8>>, values: Vec<Vec<u8>> },
    Internal { keys: Vec<Vec<u8>>, children: Vec<PageId> },
}

/// The mathematical value of a node.
#[verifier::ext_equal]
pub enum NodeView {
    Leaf { keys: Seq<Seq<u8>>, values: Seq<Seq<u8>> },
    Internal { keys: Seq<Seq<u8>>, children: Seq<PageId> },
}

impl View for Node {
    type V = NodeView;

    open spec fn view(&self) -> NodeView {
        match *self {
            Node::Leaf { keys, values } => NodeView::Leaf { keys: contents_of(keys@), values: contents_of(values@) },
            Node::Internal { keys, children } => NodeView::Internal { keys: contents_of(keys@), children: children@ },
        }
    }
}

impl PageRecord for Node {
    open spec fn body(v: NodeView) -> Seq<u8> {
        match v {
            NodeView::Leaf { keys, values } => leaf_bytes(0, keys, values),
            NodeView::Internal { keys, children } => internal_bytes(1, keys, children),
        }
    }

    proof fn body_reads_once(a: NodeView, b: NodeView, bytes: Seq<u8>) {
        match (a, b) {
            (NodeView::Leaf { keys, values }, NodeView::Leaf { keys: keys2, values: values2 }) => {
                leaf_reads_once(0, keys, values, 0, keys2, values2, bytes);
            },
            (NodeView::Internal { keys, children }, NodeView::Internal { keys: keys2, children: children2 }) => {
                internal_reads_once(1, keys, children, 1, keys2, children2, bytes);
            },
            _ => {
                lemma_tag_in_front(a, bytes);
                lemma_tag_in_front(b, bytes);
                tag_reads_once(tag_of(a), Seq::empty(), tag_of(b), bytes);
            },
        }
    }

    fn to_body(&self) -> (r: Vec<u8>) {
        match self {
            Node::Leaf { keys, values } => serialize_leaf(LEAF_TAG, keys, values).unwrap(),
            Node::Internal { keys, children } => serialize_internal(INTERNAL_TAG, keys, children).unwrap(),
        }
    }

    fn from_body(bytes: &[u8]) -> (r: Option<Node>) {
        let tag: u32 = match deserialize_tag(bytes) {
            Some(tag) => tag,
            None => {
                proof {
                    lemma_integers();
                    assert forall|v: NodeView| !(#[trigger] Node::body(v)).is_prefix_of(bytes@) by {
                        if Node::body(v).is_prefix_of(bytes@) {
                            lemma_tag_in_front(v, bytes@);
                        }
                    }
                }
                return None;
            },
        };
        proof {
            assert forall|v: NodeView| (#[trigger] Node::body(v)).is_prefix_of(bytes@) implies tag_of(v) == tag by {
                lemma_tag_in_front(v, bytes@);
                tag_reads_once(tag_of(v), Seq::empty(), tag, bytes@);
            }
        }
        if tag == LEAF_TAG {
            match deserialize_leaf(bytes) {
                Some((t, keys, values)) => {
                    let node = Node::Leaf { keys, values };
                    proof {
                        let rest = blob_list(contents_of(keys@)) + blob_list(
                            contents_of(values@),
                        );
                        tag_reads_once(t, rest, tag, bytes@);
                    }
                    Some(node)
                },
                None => None,
            }
        } else if tag == INTERNAL_TAG {
            match deserialize_internal(bytes) {
                Some((t, keys, children)) => {
                    let node = Node::Internal { keys, children };
                    proof {
                        let rest = blob_list(contents_of(keys@)) + word_list(children@);
                        tag_reads_once(t, rest, tag, bytes@);
                    }
                    Some(node)
                },
                None => None,
            }
        } else {
            None
        }
    }

    fn body_len(&self) -> (r: usize) {
        match self {
            Node::Leaf { keys, values } => leaf_size(LEAF_TAG, keys, values).unwrap() as usize,
            Node::Internal { keys, children } => internal_size(INTERNAL_TAG, keys, children).unwrap() as usize,
        }
    }
}

spec fn tag_of(v: NodeView) -> u32 {
    if v is Leaf {
        0
    } else {
        1
    }
}

proof fn lemma_tag_in_front(v: NodeView, bytes: Seq<u8>)
    requires
        Node::body(v).is_prefix_of(bytes),
    ensures
        spec_u32_to_le_bytes(tag_of(v)).is_prefix_of(bytes),
        (spec_u32_to_le_bytes(tag_of(v)) + Seq::<u8>::empty()).is_prefix_of(bytes),
        bytes.len() >= 4,
{
    lemma_integers();
    let tag = spec_u32_to_le_bytes(tag_of(v));
    assert(Node::body(v).subrange(0, 4) =~= tag);
    assert(bytes.subrange(0, 4) =~= tag);
    assert(tag + Seq::<u8>::empty() =~= tag);
}

/// Nodes that a write transaction has produced and not yet flushed, by the page
/// ids that they will occupy.
pub type Overlay = HashMap<PageId, Node>;

/// The nodes that the pages of a file hold, apart from its meta pages.
pub open spec fn stored_nodes(file: Seq<u8>) -> Nodes {
    Map::new(
        |id: PageId|
            META_PAGE_COUNT <= id && has_page(file, id as int) && record_in::<Node>(page_at(file, id as int)) is Some,
        |id: PageId| record_in::<Node>(page_at(file, id as int))->0,
    )
}

/// The nodes of a file as seen through an overlay.
pub open spec fn overlaid(nodes: Nodes, overlay: Map<PageId, Node>) -> Nodes {
    Map::new(
        |id: PageId| overlay.contains_key(id) || nodes.contains_key(id),
        |id: PageId|
            if overlay.contains_key(id) {
                overlay[id]@
            } else {
                nodes[id]
            },
    )
}

/// The nodes that a tree operation sees.
pub open spec fn visible(pager: Pager, overlay: Overlay) -> Nodes {
    overlaid(stored_nodes(pager.file()), overlay@)
}

/// A copy of a list of byte strings.
pub(crate) fn copy_list(list: &Vec<Vec<u8>>) -> (r: Vec<Vec<u8>>)
    ensures
        contents_of(r@) == contents_of(list@),
{
    assert(contents_of(list@).subrange(0, list@.len() as int) =~= contents_of(list@));
    copy_part(list, 0, list.len())
}

/// A copy of the byte strings from `start` to before `end`.
fn copy_part(list: &Vec<Vec<u8>>, start: usize, end: usize) -> (r: Vec<Vec<u8>>)
    requires
        start <= end <= list@.len(),
    ensures
        contents_of(r@) == contents_of(list@).subrange(start as int, end as int),
        r@.len() == end - start,
{
    let mut r: Vec<Vec<u8>> = Vec::new();
    let mut i: usize = start;
    while i < end
        invariant
            start <= i <= end <= list@.len(),
            r@.len() == i - start,
            forall|j: int| 0 <= j < r@.len() ==> (#[trigger] r@[j])@ == list@[start + j]@,
        decreases end - i,
    {
        r.push(vstd::slice::slice_to_vec(list[i].as_slice()));
        i += 1;
    }
    assert(contents_of(r@) =~= contents_of(list@).subrange(start as int, end as int));
    r
}

impl Node {
    /// A copy of this node.
    fn copy(&self) -> (r: Node)
        ensures
            r@ == self@,
    {
        match self {
            Node::Leaf { keys, values } => Node::Leaf { keys: copy_list(keys), values: copy_list(values) },
            Node::Internal { keys, children } => Node::Internal {
                keys: copy_list(keys),
                children: vstd::slice::slice_to_vec(children.as_slice()),
            },
        }
    }
}

/// The node that a page id stands for: from the overlay, or else from its page.
fn read_node(pager: &Pager, overlay: &Overlay, id: PageId) -> (r: Node)
    requires
        visible(*pager, *overlay).contains_key(id),
    ensures
        r@ == visible(*pager, *overlay)[id],
{
    if let Some(node) = overlay.get(&id) {
        return node.copy();
    }
    let page = pager.read_page(id).unwrap();
    decode_page(&page).unwrap()
}

/// The value stored under `key`, if there is one.
pub fn get(pager: &Pager, overlay: &Overlay, root: Option<PageId>, key: &[u8]) -> (r: Option<Vec<u8>>)
    requires
        is_store(visible(*pager, *overlay), root, page_ids()),
    ensures
        r is Some <==> contents(visible(*pager, *overlay), root).contains_key(key@),
        r matches Some(value) ==> value@ == contents(visible(*pager, *overlay), root)[key@],
{
    let ghost nodes = visible(*pager, *overlay);
    proof {
        contents_are_the_pairs(nodes, root, page_ids());
    }
    let mut cur: PageId = match root {
        Some(id) => id,
        None => {
            return None;
        },
    };
    let ghost mut lo: Seq<u8> = Seq::empty();
    let ghost mut hi: Option<Seq<u8>> = None;
    let ghost mut depth: nat = depth_of(nodes, cur);
    proof {
        the_empty_key_comes_first(key@);
        assert(forall|value: Seq<u8>| #[trigger]
            holds_pair(nodes, root, key@, value) <==> has(nodes, cur, key@, value));
    }
    loop
        invariant
            nodes == visible(*pager, *overlay),
            is_tree(nodes, cur, lo, hi, page_ids(), depth),
            within(key@, lo, hi),
            forall|k: Seq<u8>, value: Seq<u8>| #[trigger]
                holds_pair(nodes, root, k, value) <==> contents(nodes, root).contains_key(k) && contents(
                    nodes,
                    root,
                )[k] == value,
            forall|value: Seq<u8>| #[trigger]
                holds_pair(nodes, root, key@, value) <==> has(nodes, cur, key@, value),
        decreases depth,
    {
        match read_node(pager, overlay, cur) {
            Node::Leaf { keys, values } => {
                proof {
                    a_leaf_holds_its_entries(nodes, cur);
                }
                match find_key(&keys, key) {
                    Ok(i) => {
                        proof {
                            assert(contents_of(keys@)[i as int] == key@);
                            assert(contents_of(values@)[i as int] == values@[i as int]@);
                            assert(leaf_has(contents_of(keys@), contents_of(values@), key@, values@[i as int]@));
                            assert(has(nodes, cur, key@, values@[i as int]@));
                            assert(holds_pair(nodes, root, key@, values@[i as int]@));
                        }
                        return Some(vstd::slice::slice_to_vec(values[i].as_slice()));
                    },
                    Err(_) => {
                        proof {
                            if contents(nodes, root).contains_key(key@) {
                                let value = contents(nodes, root)[key@];
                                assert(holds_pair(nodes, root, key@, value));
                                assert(has(nodes, cur, key@, value));
                                let j = choose|j: int|
                                    0 <= j < contents_of(keys@).len() && #[trigger] contents_of(keys@)[j] == key@
                                        && contents_of(values@)[j] == value;
                                assert(keys@[j]@ == key@);
                                key_order_is_strict(key@, key@);
                            }
                        }
                        return None;
                    },
                }
            },
            Node::Internal { keys, children } => {
                let i: usize = child_index(&keys, key);
                proof {
                    let list = contents_of(keys@);
                    assert forall|j: int| 0 <= j < i implies key_le(#[trigger] list[j], key@) by {
                        assert(list[j] == keys@[j]@);
                    }
                    assert forall|j: int| i <= j < list.len() implies key_lt(key@, #[trigger] list[j]) by {
                        assert(list[j] == keys@[j]@);
                    }
                    lemma_descent(nodes, cur, lo, hi, page_ids(), depth, key@, i as int);
                    depth = (depth - 1) as nat;
                    lo = fence_below(list, lo, i as int);
                    hi = fence_above(list, hi, i as int);
                }
                cur = children[i];
            },
        }
    }
}

/// The keys and values that a list of pairs of byte vectors holds.
pub open spec fn rows_of(list: Seq<(Vec<u8>, Vec<u8>)>) -> Seq<Row> {
    list.map_values(|row: (Vec<u8>, Vec<u8>)| (row.0@, row.1@))
}

/// The bytes of a bound, where it is given.
pub open spec fn bound_of(bound: Option<&[u8]>) -> Option<Seq<u8>> {
    match bound {
        Some(b) => Some(b@),
        None => None,
    }
}

/// Whether `key` is not before `start` and before `end`, where they are given.
fn is_in_bounds(key: &[u8], start: Option<&[u8]>, end: Option<&[u8]>) -> (r: bool)
    ensures
        r == in_bounds(key@, bound_of(start), bound_of(end)),
{
    if let Some(s) = start {
        match compare_keys(key, s) {
            KeyOrder::Less => {
                return false;
            },
            _ => {},
        }
    }
    if let Some(e) = end {
        match compare_keys(key, e) {
            KeyOrder::Less => {},
            _ => {
                return false;
            },
        }
    }
    true
}

/// All pairs with `start <= key < end`, either bound optional, in key order.
pub fn range(
    pager: &Pager,
    overlay: &Overlay,
    root: Option<PageId>,
    start: Option<&[u8]>,
    end: Option<&[u8]>,
) -> (r: Vec<(Vec<u8>, Vec<u8>)>)
    requires
        is_store(visible(*pager, *overlay), root, page_ids()),
    ensures
        lists(rows_of(r@), contents(visible(*pager, *overlay), root), bound_of(start), bound_of(end)),
{
    let ghost nodes = visible(*pager, *overlay);
    proof {
        contents_are_the_pairs(nodes, root, page_ids());
    }
    let mut out: Vec<(Vec<u8>, Vec<u8>)> = Vec::new();
    if let Some(id) = root {
        let ghost depth = depth_of(nodes, id);
        collect(pager, overlay, id, start, end, &mut out, Ghost(Seq::empty()), Ghost(None), Ghost(depth));
        proof {
            assert(rows_of(out@).skip(0) =~= rows_of(out@));
            let m = contents(nodes, root);
            assert forall|key: Seq<u8>, value: Seq<u8>| #[trigger] rows_of(out@).contains((key, value))
                <==> m.contains_key(key) && m[key] == value && in_bounds(key, bound_of(start), bound_of(end)) by {
                assert(holds_pair(nodes, root, key, value) <==> has(nodes, id, key, value));
            }
        }
    } else {
        proof {
            let m = contents(nodes, root);
            assert forall|key: Seq<u8>, value: Seq<u8>| #[trigger] rows_of(out@).contains((key, value))
                <==> m.contains_key(key) && m[key] == value && in_bounds(key, bound_of(start), bound_of(end)) by {
                assert(!holds_pair(nodes, root, key, value));
            }
        }
    }
    out
}

/// `row` is one of the first `n` entries of a leaf, with its key in bounds.
spec fn is_leaf_row(
    ks: Seq<Seq<u8>>,
    vs: Seq<Seq<u8>>,
    n: int,
    from: Option<Seq<u8>>,
    to: Option<Seq<u8>>,
    row: Row,
) -> bool {
    exists|m: int| #![trigger ks[m]] 0 <= m < n && row == (ks[m], vs[m]) && in_bounds(ks[m], from, to)
}

/// Appends what the subtree at `node_id` holds in bounds.
#[verifier::rlimit(40)]
fn collect(
    pager: &Pager,
    overlay: &Overlay,
    node_id: PageId,
    start: Option<&[u8]>,
    end: Option<&[u8]>,
    out: &mut Vec<(Vec<u8>, Vec<u8>)>,
    Ghost(lo): Ghost<Seq<u8>>,
    Ghost(hi): Ghost<Option<Seq<u8>>>,
    Ghost(depth): Ghost<nat>,
)
    requires
        is_tree(visible(*pager, *overlay), node_id, lo, hi, page_ids(), depth),
    ensures
        final(out)@.len() >= old(out)@.len(),
        rows_of(final(out)@).take(old(out)@.len() as int) == rows_of(old(out)@),
        lists_tree(
            rows_of(final(out)@).skip(old(out)@.len() as int),
            visible(*pager, *overlay),
            node_id,
            bound_of(start),
            bound_of(end),
        ),
    decreases depth,
{
    let ghost nodes = visible(*pager, *overlay);
    let ghost from = bound_of(start);
    let ghost to = bound_of(end);
    let ghost base = rows_of(out@);
    match read_node(pager, overlay, node_id) {
        Node::Leaf { keys, values } => {
            let ghost ks = contents_of(keys@);
            let ghost vs = contents_of(values@);
            let ghost mut found: Seq<Row> = Seq::empty();
            let mut i: usize = 0;
            assert(rows_of(out@) =~= base + found);
            while i < keys.len()
                invariant
                    i <= keys@.len() == values@.len(),
                    ks == contents_of(keys@),
                    vs == contents_of(values@),
                    from == bound_of(start),
                    to == bound_of(end),
                    ascending(ks),
                    rows_of(out@) == base + found,
                    in_key_order(found),
                    forall|j: int| 0 <= j < found.len() ==> is_leaf_row(
                        ks,
                        vs,
                        i as int,
                        from,
                        to,
                        #[trigger] found[j],
                    ),
                    forall|m: int| #![trigger ks[m]] 0 <= m < i && in_bounds(ks[m], from, to) ==> found.contains(
                        (ks[m], vs[m]),
                    ),
                decreases keys@.len() - i,
            {
                let ghost row = (ks[i as int], vs[i as int]);
                if is_in_bounds(keys[i].as_slice(), start, end) {
                    let ghost prev = out@;
                    out.push(
                        (
                            vstd::slice::slice_to_vec(keys[i].as_slice()),
                            vstd::slice::slice_to_vec(values[i].as_slice()),
                        ),
                    );
                    proof {
                        let before = found;
                        found = before.push(row);
                        assert(rows_of(out@) =~= rows_of(prev).push(row));
                        assert(rows_of(prev).push(row) =~= base + found);
                        assert forall|a: int, b: int| 0 <= a < b < found.len() implies key_lt(
                            (#[trigger] found[a]).0,
                            (#[trigger] found[b]).0,
                        ) by {
                            if b == before.len() {
                                assert(is_leaf_row(ks, vs, i as int, from, to, before[a]));
                                let m = choose|m: int| #![trigger ks[m]]
                                    0 <= m < i && before[a] == (ks[m], vs[m]) && in_bounds(ks[m], from, to);
                                assert(key_lt(ks[m], ks[i as int]));
                            }
                        }
                        assert(found[before.len() as int] == row);
                        assert forall|m: int| #![trigger ks[m]] 0 <= m < i + 1 && in_bounds(ks[m], from, to) implies
                            found.contains((ks[m], vs[m])) by {
                            if m < i {
                                let a = choose|a: int| 0 <= a < before.len() && before[a] == (ks[m], vs[m]);
                                assert(found[a] == (ks[m], vs[m]));
                            }
                        }
                        assert forall|j: int| 0 <= j < found.len() implies is_leaf_row(
                            ks,
                            vs,
                            i + 1,
                            from,
                            to,
                            #[trigger] found[j],
                        ) by {
                            if j < before.len() {
                                assert(is_leaf_row(ks, vs, i as int, from, to, before[j]));
                            } else {
                                assert(found[j] == (ks[i as int], vs[i as int]));
                            }
                        }
                    }
                }
                i += 1;
            }
            proof {
                assert(rows_of(out@).take(base.len() as int) =~= base);
                assert(rows_of(out@).skip(base.len() as int) =~= found);
                a_leaf_holds_its_entries(nodes, node_id);
                assert forall|key: Seq<u8>, value: Seq<u8>| #[trigger] found.contains((key, value)) <==> has(
                    nodes,
                    node_id,
                    key,
                    value,
                ) && in_bounds(key, from, to) by {
                    if has(nodes, node_id, key, value) && in_bounds(key, from, to) {
                        let m = choose|m: int| 0 <= m < ks.len() && #[trigger] ks[m] == key && vs[m] == value;
                        assert(found.contains((ks[m], vs[m])));
                    }
                    if found.contains((key, value)) {
                        let j = choose|j: int| 0 <= j < found.len() && found[j] == (key, value);
                        assert(is_leaf_row(ks, vs, keys@.len() as int, from, to, found[j]));
                        let m = choose|m: int| #![trigger ks[m]]
                            0 <= m < keys@.len() && found[j] == (ks[m], vs[m]) && in_bounds(ks[m], from, to);
                        assert(ks[m] == key);
                    }
                }
            }
        },
        Node::Internal { keys, children } => {
            let ghost mut found: Seq<Row> = Seq::empty();
            let mut i: usize = 0;
            assert(rows_of(out@) =~= base + found);
            while i < children.len()
                invariant
                    i <= children@.len(),
                    nodes == visible(*pager, *overlay),
                    from == bound_of(start),
                    to == bound_of(end),
                    is_tree(nodes, node_id, lo, hi, page_ids(), depth),
                    nodes[node_id] == (NodeView::Internal { keys: contents_of(keys@), children: children@ }),
                    rows_of(out@) == base + found,
                    lists_children(found, nodes, children@, i as int, from, to),
                decreases children@.len() - i,
            {
                let ghost below = fence_below(contents_of(keys@), lo, i as int);
                let ghost above = fence_above(contents_of(keys@), hi, i as int);
                let ghost so_far = rows_of(out@);
                assert(is_tree(nodes, children@[i as int], below, above, page_ids(), (depth - 1) as nat));
                collect(
                    pager,
                    overlay,
                    children[i],
                    start,
                    end,
                    out,
                    Ghost(below),
                    Ghost(above),
                    Ghost((depth - 1) as nat),
                );
                proof {
                    let more = rows_of(out@).skip(so_far.len() as int);
                    lemma_next_child_follows(nodes, node_id, lo, hi, page_ids(), depth, i as int, found, more, from, to);
                    assert(rows_of(out@) =~= so_far + more);
                    assert(so_far + more =~= base + (found + more));
                    found = found + more;
                }
                i += 1;
            }
            proof {
                assert(rows_of(out@).take(base.len() as int) =~= base);
                assert(rows_of(out@).skip(base.len() as int) =~= found);
                an_internal_node_holds_what_its_children_hold(nodes, node_id);
                assert forall|key: Seq<u8>, value: Seq<u8>| #[trigger] found.contains((key, value)) <==> has(
                    nodes,
                    node_id,
                    key,
                    value,
                ) && in_bounds(key, from, to) by {
                    if has(nodes, node_id, key, value) {
                        let c = choose|c: int| 0 <= c < children@.len() && has(nodes, #[trigger] children@[c], key, value);
                        assert(has(nodes, children@[c], key, value));
                    }
                }
            }
        },
    }
}

// ---------------------------------------------------------------------------
// Changes
// ---------------------------------------------------------------------------

/// What one change to a tree works on.
struct Ctx<'a> {
    pager: &'a Pager,
    overlay: Overlay,
    next_page: PageId,
}

impl<'a> Ctx<'a> {
    /// The nodes that this change sees.
    spec fn nodes(&self) -> Nodes {
        visible(*self.pager, self.overlay)
    }

    /// From `earlier` on, nodes were written to every page id taken since, and
    /// to no other.
    spec fn only_adds(&self, earlier: Ctx<'a>) -> bool {
        &&& self.pager == earlier.pager
        &&& earlier.next_page <= self.next_page
        &&& added(earlier.overlay, self.overlay, earlier.next_page, self.next_page)
    }

    /// The change has come as far as `g`, which `result` stands for.
    spec fn stands_at(&self, result: DescendResult, g: Grown) -> bool {
        &&& self.nodes() == g.nodes
        &&& self.next_page == g.next
        &&& ids_in(result) == g.ids
        &&& separators_in(result) == g.seps
    }

    /// Takes the next page id.
    fn take_page(&mut self) -> (id: PageId)
        requires
            old(self).next_page < u64::MAX,
        ensures
            id == old(self).next_page,
            final(self).next_page == id + 1,
            final(self).overlay == old(self).overlay,
            final(self).pager == old(self).pager,
    {
        let id: PageId = self.next_page;
        self.next_page = id + 1;
        id
    }

    /// Puts a node at a page id.
    fn put_node(&mut self, id: PageId, node: Node)
        ensures
            final(self).overlay@ == old(self).overlay@.insert(id, node),
            final(self).nodes() == old(self).nodes().insert(id, node@),
            final(self).next_page == old(self).next_page,
            final(self).pager == old(self).pager,
    {
        self.overlay.insert(id, node);
        assert(self.nodes() =~= old(self).nodes().insert(id, node@));
    }

    /// The node at a page id.
    fn read(&self, id: PageId) -> (r: Node)
        requires
            self.nodes().contains_key(id),
        ensures
            r@ == self.nodes()[id],
    {
        read_node(self.pager, &self.overlay, id)
    }
}

/// `after` has the nodes of `before`, and new ones from page `start` to before
/// `end`.
pub open spec fn extends(before: Nodes, after: Nodes, start: PageId, end: PageId) -> bool {
    &&& forall|id: PageId| #[trigger]
        after.contains_key(id) <==> before.contains_key(id) || start <= id < end
    &&& forall|id: PageId|
        !(start <= id < end) && #[trigger] before.contains_key(id) ==> after[id] == before[id]
}

/// `after` has nodes at the ids of `before` and at those from `start` to before
/// `end`.
pub open spec fn added(before: Overlay, after: Overlay, start: PageId, end: PageId) -> bool {
    forall|id: PageId| #[trigger] after@.contains_key(id) <==> before@.contains_key(id) || start <= id < end
}

/// Every node from `start` to before `end` has keys that are few and short
/// enough.
pub open spec fn all_sized(nodes: Nodes, start: PageId, end: PageId) -> bool {
    forall|id: PageId| start <= id < end ==> sized(#[trigger] nodes[id])
}

/// Some node is at least as large as this one.
pub open spec fn is_no_larger(nodes: Nodes, node: NodeView) -> bool {
    exists|id: PageId| #[trigger] nodes.contains_key(id) && node_size(node) <= node_size(nodes[id])
}

/// None of the nodes from `start` to before `end` is larger than all of those
/// before.
pub open spec fn none_larger(before: Nodes, after: Nodes, start: PageId, end: PageId) -> bool {
    forall|id: PageId| start <= id < end ==> is_no_larger(before, #[trigger] after[id])
}

/// What descending into a child gives: its new id and, for each piece that was
/// cut off it, the separator that goes to the parent and the id of the new
/// right sibling.
type DescendResult = (PageId, Vec<(Vec<u8>, PageId)>);

/// The ids in a descent's result.
spec fn ids_in(result: DescendResult) -> Seq<PageId> {
    Seq::new(result.1@.len() + 1, |i: int| if i == 0 { result.0 } else { result.1@[i - 1].1 })
}

/// The separators in a descent's result.
spec fn separators_in(result: DescendResult) -> Seq<Seq<u8>> {
    Seq::new(result.1@.len(), |i: int| result.1@[i].0@)
}

impl Node {
    /// How many keys the node has.
    fn key_count(&self) -> (r: usize)
        ensures
            r == keys_of(self@).len(),
    {
        match self {
            Node::Leaf { keys, .. } => keys.len(),
            Node::Internal { keys, .. } => keys.len(),
        }
    }

    /// A copy of one of the node's keys.
    fn copy_key(&self, i: usize) -> (r: Vec<u8>)
        requires
            i < keys_of(self@).len(),
        ensures
            r@ == keys_of(self@)[i as int],
    {
        match self {
            Node::Leaf { keys, .. } => vstd::slice::slice_to_vec(keys[i].as_slice()),
            Node::Internal { keys, .. } => vstd::slice::slice_to_vec(keys[i].as_slice()),
        }
    }

    /// A copy of the keys from `from` to before `to` with what belongs to them.
    fn copy_piece(&self, from: usize, to: usize) -> (r: Node)
        requires
            is_paired(self@),
            from <= to <= keys_of(self@).len(),
        ensures
            r@ == piece(self@, from as int, to as int),
    {
        match self {
            Node::Leaf { keys, values } => Node::Leaf {
                keys: copy_part(keys, from, to),
                values: copy_part(values, from, to),
            },
            Node::Internal { keys, children } => {
                assert(to < children.len());
                Node::Internal {
                    keys: copy_part(keys, from, to),
                    children: vstd::slice::slice_to_vec(
                        vstd::slice::slice_subrange(children.as_slice(), from, to + 1),
                    ),
                }
            },
        }
    }

    /// Where the piece after a cut begins.
    fn past_cut(&self, cut: usize) -> (r: usize)
        requires
            cut < usize::MAX,
        ensures
            r == past(self@, cut as int),
    {
        match self {
            Node::Leaf { .. } => cut,
            Node::Internal { .. } => cut + 1,
        }
    }

    /// Whether the keys from `from` to before `to` go into a page.
    fn piece_fits(&self, from: usize, to: usize) -> (r: bool)
        requires
            is_paired(self@),
            from <= to <= keys_of(self@).len(),
            Node::body(self@).len() <= usize::MAX - CHECKSUM_SIZE,
        ensures
            r == goes_into_a_page(piece(self@, from as int, to as int)),
    {
        proof {
            lemma_piece_size(self@, from as int, to as int);
        }
        encoded_len(&self.copy_piece(from, to)) <= PAGE_SIZE
    }

    /// Whether both parts that a cut makes go into a page.
    fn fits_cut_at(&self, cut: usize) -> (r: bool)
        requires
            is_paired(self@),
            cut < keys_of(self@).len(),
            Node::body(self@).len() <= usize::MAX - CHECKSUM_SIZE,
        ensures
            r == cut_fits(self@, cut as int),
    {
        let n: usize = self.key_count();
        self.piece_fits(0, cut) && self.piece_fits(self.past_cut(cut), n)
    }

    /// Where to cut the node after its entry `at` has changed.
    fn find_cuts(&self, at: usize) -> (r: Vec<usize>)
        requires
            is_paired(self@),
            keys_of(self@).len() > 0 ==> at < keys_of(self@).len(),
            Node::body(self@).len() <= usize::MAX - CHECKSUM_SIZE,
        ensures
            r@.map_values(|c: usize| c as int) == cuts(self@, at as int),
            r@.len() == cuts(self@, at as int).len() <= 2,
            forall|i: int| 0 <= i < r@.len() ==> #[trigger] r@[i] == cuts(self@, at as int)[i],
            forall|i: int| 0 <= i < r@.len() ==> #[trigger] r@[i] < keys_of(self@).len(),
    {
        let mut r: Vec<usize> = Vec::new();
        if encoded_len(self) > SPLIT_THRESHOLD {
            let n: usize = self.key_count();
            proof {
                if n == 0 {
                    lemma_no_keys_is_small(self@);
                }
            }
            if self.fits_cut_at(n / 2) {
                r.push(n / 2);
            } else if at + 1 >= n || self.fits_cut_at(at) {
                r.push(at);
            } else if self.fits_cut_at(at + 1) {
                r.push(at + 1);
            } else {
                r.push(at);
                r.push(at + 1);
            }
        }
        assert(r@.map_values(|c: usize| c as int) =~= cuts(self@, at as int));
        r
    }
}

/// Stores a node whose entry `at` has changed, cut if it outgrew the threshold.
#[verifier::rlimit(40)]
fn settle(ctx: &mut Ctx, node: Node, at: usize) -> (r: DescendResult)
    requires
        old(ctx).next_page + 3 <= u64::MAX,
        is_paired(node@),
        keys_of(node@).len() > 0 ==> at < keys_of(node@).len(),
        Node::body(node@).len() <= usize::MAX - CHECKSUM_SIZE,
        cuts(node@, at as int).len() == 2 ==> past(node@, cuts(node@, at as int)[0]) <= cuts(node@, at as int)[1],
    ensures
        final(ctx).stands_at(r, settled(old(ctx).nodes(), node@, at as int, old(ctx).next_page)),
        final(ctx).only_adds(*old(ctx)),
{
    let ghost whole = node@;
    let ghost list = pieces(whole, cuts(whole, at as int));
    let ghost before = ctx.nodes();
    let ghost start = ctx.next_page;
    let found = node.find_cuts(at);
    let n: usize = node.key_count();
    let mut rest: Vec<(Vec<u8>, PageId)> = Vec::new();
    let first_id: PageId = ctx.take_page();
    if found.len() == 0 {
        ctx.put_node(first_id, node);
    } else if found.len() == 1 {
        let cut: usize = found[0];
        let left = node.copy_piece(0, cut);
        let right = node.copy_piece(node.past_cut(cut), n);
        let right_id: PageId = ctx.take_page();
        ctx.put_node(first_id, left);
        ctx.put_node(right_id, right);
        rest.push((node.copy_key(cut), right_id));
    } else {
        let cut: usize = found[0];
        let next_cut: usize = found[1];
        let left = node.copy_piece(0, cut);
        let middle = node.copy_piece(node.past_cut(cut), next_cut);
        let right = node.copy_piece(node.past_cut(next_cut), n);
        let middle_id: PageId = ctx.take_page();
        let right_id: PageId = ctx.take_page();
        ctx.put_node(first_id, left);
        ctx.put_node(middle_id, middle);
        ctx.put_node(right_id, right);
        rest.push((node.copy_key(cut), middle_id));
        rest.push((node.copy_key(next_cut), right_id));
    }
    proof {
        let g = settled(before, whole, at as int, start);
        let r = (first_id, rest);
        assert(ctx.nodes() =~= g.nodes);
        assert(ids_in(r) =~= g.ids);
        assert(separators_in(r) =~= g.seps);
    }
    (first_id, rest)
}

/// Adding nodes and then adding more is adding nodes.
proof fn lemma_adds_chain(a: Ctx, b: Ctx, c: Ctx)
    requires
        b.only_adds(a),
        c.only_adds(b),
    ensures
        c.only_adds(a),
{
    assert forall|id: PageId| #[trigger] c.overlay@.contains_key(id) <==> a.overlay@.contains_key(id) || a.next_page
        <= id < c.next_page by {
        assert(b.overlay@.contains_key(id) <==> a.overlay@.contains_key(id) || a.next_page <= id < b.next_page);
    }
}

/// Puts what a descent gave in place of child `i`.
fn splice(
    keys: &mut Vec<Vec<u8>>,
    children: &mut Vec<PageId>,
    i: usize,
    grown: DescendResult,
)
    requires
        old(children)@.len() == old(keys)@.len() + 1,
        i <= old(keys)@.len() <= MAX_KEYS,
        grown.1@.len() <= 2,
    ensures
        contents_of(final(keys)@) == spliced_keys(contents_of(old(keys)@), i as int, separators_in(grown)),
        final(children)@ == spliced_children(old(children)@, i as int, ids_in(grown)),
        final(keys)@.len() == old(keys)@.len() + grown.1@.len(),
{
    let ghost ks = contents_of(keys@);
    let ghost cs = children@;
    let ghost seps = separators_in(grown);
    let ghost ids = ids_in(grown);
    let (child, siblings) = grown;
    children[i] = child;
    assert(contents_of(keys@) =~= ks.subrange(0, i as int) + seps.take(0) + ks.subrange(i as int, ks.len() as int));
    assert(children@ =~= cs.subrange(0, i as int) + ids.take(1) + cs.subrange(i + 1, cs.len() as int));
    let mut j: usize = 0;
    while j < siblings.len()
        invariant
            i <= ks.len() <= MAX_KEYS,
            cs.len() == ks.len() + 1,
            j <= siblings@.len() <= 2,
            grown == (child, siblings),
            seps == separators_in(grown),
            ids == ids_in(grown),
            keys@.len() == ks.len() + j,
            children@.len() == cs.len() + j,
            contents_of(keys@) == ks.subrange(0, i as int) + seps.take(j as int) + ks.subrange(
                i as int,
                ks.len() as int,
            ),
            children@ == cs.subrange(0, i as int) + ids.take(j + 1) + cs.subrange(i + 1, cs.len() as int),
        decreases siblings@.len() - j,
    {
        let ghost listed = contents_of(keys@);
        let ghost had = children@;
        let sep = vstd::slice::slice_to_vec(siblings[j].0.as_slice());
        assert(sep@ == seps[j as int]);
        keys.insert(i + j, sep);
        children.insert(i + 1 + j, siblings[j].1);
        proof {
            assert(contents_of(keys@) =~= listed.insert(i + j, seps[j as int]));
            assert(contents_of(keys@) =~= ks.subrange(0, i as int) + seps.take(j + 1) + ks.subrange(
                i as int,
                ks.len() as int,
            ));
            assert(children@ =~= cs.subrange(0, i as int) + ids.take(j + 2) + cs.subrange(i + 1, cs.len() as int));
        }
        j += 1;
    }
    proof {
        assert(seps.take(siblings@.len() as int) =~= seps);
        assert(ids.take(siblings@.len() as int + 1) =~= ids);
    }
}

/// Stores `value` under `key` in the subtree at `node_id`.
#[verifier::rlimit(40)]
fn insert_rec(
    ctx: &mut Ctx,
    node_id: PageId,
    key: &[u8],
    value: &[u8],
    Ghost(lo): Ghost<Seq<u8>>,
    Ghost(hi): Ghost<Option<Seq<u8>>>,
    Ghost(depth): Ghost<nat>,
) -> (r: DescendResult)
    requires
        is_tree(old(ctx).nodes(), node_id, lo, hi, old(ctx).next_page as int, depth),
        within(key@, lo, hi),
        entry_fits(key@, value@),
        old(ctx).next_page + 3 * steps(old(ctx).nodes(), node_id, key@, depth) <= u64::MAX,
    ensures
        final(ctx).stands_at(r, put_in(old(ctx).nodes(), node_id, key@, value@, old(ctx).next_page, depth)),
        final(ctx).only_adds(*old(ctx)),
    decreases depth,
{
    let ghost before = ctx.nodes();
    let ghost start = ctx.next_page;
    match ctx.read(node_id) {
        Node::Leaf { mut keys, mut values } => {
            let ghost ks = contents_of(keys@);
            let ghost vs = contents_of(values@);
            let at: usize = match find_key(&keys, key) {
                Ok(i) => {
                    assert(ks[i as int] == key@);
                    values[i] = vstd::slice::slice_to_vec(value);
                    assert(contents_of(values@) =~= vs.update(i as int, value@));
                    i
                },
                Err(i) => {
                    proof {
                        if i < ks.len() {
                            assert(ks[i as int] == keys@[i as int]@);
                            key_order_is_strict(key@, key@);
                        }
                    }
                    keys.insert(i, vstd::slice::slice_to_vec(key));
                    values.insert(i, vstd::slice::slice_to_vec(value));
                    assert(contents_of(keys@) =~= ks.insert(i as int, key@));
                    assert(contents_of(values@) =~= vs.insert(i as int, value@));
                    i
                },
            };
            let node = Node::Leaf { keys, values };
            proof {
                assert(node@ == leaf_with(ks, vs, key@, value@));
                lemma_leaf_with(ks, vs, lo, hi, key@, value@);
                lemma_leaf_len(node@->Leaf_keys, node@->values);
            }
            settle(ctx, node, at)
        },
        Node::Internal { mut keys, mut children } => {
            let ghost ks = contents_of(keys@);
            let ghost cs = children@;
            let i: usize = child_index(&keys, key);
            let ghost below = fence_below(ks, lo, i as int);
            let ghost above = fence_above(ks, hi, i as int);
            let ghost less = (depth - 1) as nat;
            proof {
                lemma_branch(before, node_id, lo, hi, start as int, depth, key@);
                lemma_put_in(before, cs[i as int], key@, value@, start, below, above, less);
            }
            let grown = insert_rec(ctx, children[i], key, value, Ghost(below), Ghost(above), Ghost(less));
            let ghost g = put_in(before, cs[i as int], key@, value@, start, less);
            let ghost descended = *ctx;
            proof {
                assert(ids_in(grown).len() == grown.1@.len() + 1);
                assert(separators_in(grown).len() == grown.1@.len());
                lemma_internal_with(before, node_id, lo, hi, depth, i as int, start, g, false);
            }
            splice(&mut keys, &mut children, i, grown);
            let at: usize = if i < keys.len() {
                i
            } else if keys.len() == 0 {
                0
            } else {
                keys.len() - 1
            };
            let node = Node::Internal { keys, children };
            proof {
                assert(node@ == internal_with(ks, cs, i as int, g));
                lemma_internal_len(node@->Internal_keys, node@->children);
            }
            let r = settle(ctx, node, at);
            proof {
                lemma_adds_chain(*old(ctx), descended, *ctx);
            }
            r
        },
    }
}

/// Puts trees that stand side by side under one root.
#[verifier::rlimit(40)]
fn grow_root(ctx: &mut Ctx, grown: DescendResult) -> (r: PageId)
    requires
        old(ctx).next_page + 3 <= u64::MAX,
        grown.1@.len() <= 2,
        forall|i: int| 0 <= i < grown.1@.len() ==> (#[trigger] grown.1@[i]).0@.len() <= MAX_ENTRY,
    ensures
        ({
            let g = Grown {
                nodes: old(ctx).nodes(),
                ids: ids_in(grown),
                seps: separators_in(grown),
                next: old(ctx).next_page,
            };
            &&& final(ctx).nodes() == under_one_root(g).nodes
            &&& final(ctx).next_page == under_one_root(g).next
            &&& seq![r] == under_one_root(g).ids
        }),
        final(ctx).only_adds(*old(ctx)),
{
    let ghost g = Grown {
        nodes: ctx.nodes(),
        ids: ids_in(grown),
        seps: separators_in(grown),
        next: ctx.next_page,
    };
    let (first, siblings) = grown;
    if siblings.len() == 0 {
        assert(ids_in(grown) =~= seq![first]);
        return first;
    }
    let mut keys: Vec<Vec<u8>> = Vec::new();
    let mut children: Vec<PageId> = Vec::new();
    children.push(first);
    let mut j: usize = 0;
    while j < siblings.len()
        invariant
            j <= siblings@.len() <= 2,
            grown == (first, siblings),
            keys@.len() == j,
            children@.len() == j + 1,
            forall|i: int| 0 <= i < j ==> (#[trigger] keys@[i])@ == siblings@[i].0@,
            children@[0] == first,
            forall|i: int| 0 <= i < j ==> children@[i + 1] == (#[trigger] siblings@[i]).1,
        decreases siblings@.len() - j,
    {
        keys.push(vstd::slice::slice_to_vec(siblings[j].0.as_slice()));
        children.push(siblings[j].1);
        j += 1;
    }
    let root = Node::Internal { keys, children };
    proof {
        assert(contents_of(keys@) =~= separators_in(grown));
        assert forall|i: int| 0 <= i < children@.len() implies children@[i] == ids_in(grown)[i] by {
            if i > 0 {
                assert(children@[i - 1 + 1] == siblings@[i - 1].1);
            }
        }
        assert(children@ =~= ids_in(grown));
        assert forall|i: int| 0 <= i < separators_in(grown).len() implies (#[trigger] separators_in(grown)[i]).len()
            <= MAX_ENTRY by {
            assert(grown.1@[i].0@.len() <= MAX_ENTRY);
        }
        lemma_internal_len(root@->Internal_keys, root@->children);
    }
    if siblings.len() == 1 || encoded_len(&root) <= PAGE_SIZE {
        let id: PageId = ctx.take_page();
        ctx.put_node(id, root);
        assert(ctx.nodes() =~= under_one_root(g).nodes);
        id
    } else {
        let left_id: PageId = ctx.take_page();
        let right_id: PageId = ctx.take_page();
        let id: PageId = ctx.take_page();
        let left = root.copy_piece(0, 1);
        let right = root.copy_piece(2, 2);
        let mut keys: Vec<Vec<u8>> = Vec::new();
        keys.push(root.copy_key(1));
        let mut children: Vec<PageId> = Vec::new();
        children.push(left_id);
        children.push(right_id);
        proof {
            assert(g.seps.subrange(0, 1) =~= seq![g.seps[0]]);
            assert(g.ids.subrange(0, 2) =~= seq![g.ids[0], g.ids[1]]);
            assert(g.seps.subrange(2, 2) =~= Seq::empty());
            assert(g.ids.subrange(2, 3) =~= seq![g.ids[2]]);
            assert(contents_of(keys@) =~= seq![g.seps[1]]);
            assert(children@ =~= seq![left_id, right_id]);
        }
        ctx.put_node(left_id, left);
        ctx.put_node(right_id, right);
        ctx.put_node(id, Node::Internal { keys, children });
        assert(ctx.nodes() =~= under_one_root(g).nodes);
        id
    }
}

/// Stores `value` under `key` and returns the new root. What the old root
/// stands for is left as it was.
#[verifier::rlimit(40)]
pub fn put(
    pager: &Pager,
    overlay: &mut Overlay,
    next_page: &mut PageId,
    root: Option<PageId>,
    key: &[u8],
    value: &[u8],
) -> (r: PageId)
    requires
        is_store(visible(*pager, *old(overlay)), root, *old(next_page) as int),
        *old(next_page) + 3 * path_len(visible(*pager, *old(overlay)), root, key@) + 3 <= u64::MAX,
        entry_fits(key@, value@),
    ensures
        ({
            let g = put_under(visible(*pager, *old(overlay)), root, key@, value@, *old(next_page));
            &&& visible(*pager, *final(overlay)) == g.nodes
            &&& *final(next_page) == g.next
            &&& seq![r] == g.ids
        }),
        is_store(visible(*pager, *final(overlay)), Some(r), *final(next_page) as int),
        contents(visible(*pager, *final(overlay)), Some(r)) == contents(visible(*pager, *old(overlay)), root).insert(
            key@,
            value@,
        ),
        height(visible(*pager, *final(overlay)), Some(r)) <= height(visible(*pager, *old(overlay)), root) + 2,
        *old(next_page) <= r < *final(next_page),
        *final(next_page) <= *old(next_page) + 3 * path_len(visible(*pager, *old(overlay)), root, key@) + 3,
        is_even(visible(*pager, *old(overlay)), root) ==> is_even(visible(*pager, *final(overlay)), Some(r)),
        is_store(visible(*pager, *final(overlay)), root, *old(next_page) as int),
        contents(visible(*pager, *final(overlay)), root) == contents(visible(*pager, *old(overlay)), root),
        added(*old(overlay), *final(overlay), *old(next_page), *final(next_page)),
        extends(
            visible(*pager, *old(overlay)),
            visible(*pager, *final(overlay)),
            *old(next_page),
            *final(next_page),
        ),
        all_sized(visible(*pager, *final(overlay)), *old(next_page), *final(next_page)),
        all_go_into_pages(visible(*pager, *old(overlay))) && within_budget(
            contents(visible(*pager, *old(overlay)), root),
        ) && key@.len() + value@.len() <= RECORD_BUDGET ==> all_go_into_pages(visible(*pager, *final(overlay))),
{
    let ghost before = visible(*pager, *overlay);
    let first_page: PageId = *next_page;
    proof {
        a_put_stores_the_pair(before, root, key@, value@, first_page);
        if all_go_into_pages(before) && within_budget(contents(before, root)) && key@.len() + value@.len()
            <= RECORD_BUDGET {
            a_put_within_the_budget_fits(before, root, key@, value@, first_page);
        }
        the_empty_key_comes_first(key@);
    }
    let mut taken: Overlay = HashMap::new();
    std::mem::swap(overlay, &mut taken);
    let mut ctx = Ctx { pager, overlay: taken, next_page: first_page };
    let ghost begun = ctx;
    let r: PageId = match root {
        None => {
            let id: PageId = ctx.take_page();
            let mut keys: Vec<Vec<u8>> = Vec::new();
            keys.push(vstd::slice::slice_to_vec(key));
            let mut values: Vec<Vec<u8>> = Vec::new();
            values.push(vstd::slice::slice_to_vec(value));
            proof {
                assert(contents_of(keys@) =~= seq![key@]);
                assert(contents_of(values@) =~= seq![value@]);
            }
            ctx.put_node(id, Node::Leaf { keys, values });
            assert(ctx.nodes() =~= put_under(before, root, key@, value@, first_page).nodes);
            id
        },
        Some(root_id) => {
            let ghost depth = depth_of(before, root_id);
            proof {
                lemma_put_in(before, root_id, key@, value@, first_page, Seq::empty(), None, depth);
            }
            let grown = insert_rec(
                &mut ctx,
                root_id,
                key,
                value,
                Ghost(Seq::empty()),
                Ghost(None),
                Ghost(depth),
            );
            let ghost middle = ctx;
            let ghost g = put_in(before, root_id, key@, value@, first_page, depth);
            proof {
                assert(separators_in(grown).len() == grown.1@.len());
                assert forall|i: int| 0 <= i < grown.1@.len() implies (#[trigger] grown.1@[i]).0@.len() <= MAX_ENTRY by {
                    assert(separators_in(grown)[i] == grown.1@[i].0@);
                    assert(g.seps[i].len() <= MAX_ENTRY);
                }
            }
            let id: PageId = grow_root(&mut ctx, grown);
            proof {
                lemma_adds_chain(begun, middle, ctx);
            }
            id
        },
    };
    *next_page = ctx.next_page;
    *overlay = ctx.overlay;
    r
}

/// Removes what is stored under `key` in the subtree at `node_id`, and says
/// whether there was anything.
#[verifier::rlimit(40)]
fn delete_rec(
    ctx: &mut Ctx,
    node_id: PageId,
    key: &[u8],
    Ghost(lo): Ghost<Seq<u8>>,
    Ghost(hi): Ghost<Option<Seq<u8>>>,
    Ghost(depth): Ghost<nat>,
) -> (r: (PageId, bool))
    requires
        is_tree(old(ctx).nodes(), node_id, lo, hi, old(ctx).next_page as int, depth),
        within(key@, lo, hi),
        old(ctx).next_page + steps(old(ctx).nodes(), node_id, key@, depth) <= u64::MAX,
    ensures
        ({
            let g = delete_in(old(ctx).nodes(), node_id, key@, old(ctx).next_page, depth);
            &&& final(ctx).nodes() == g.nodes
            &&& final(ctx).next_page == g.next
            &&& seq![r.0] == g.ids
        }),
        final(ctx).only_adds(*old(ctx)),
        r.1 <==> exists|v: Seq<u8>| has(old(ctx).nodes(), node_id, key@, v),
    decreases depth,
{
    let ghost before = ctx.nodes();
    let ghost start = ctx.next_page;
    match ctx.read(node_id) {
        Node::Leaf { mut keys, mut values } => {
            let ghost ks = contents_of(keys@);
            let ghost vs = contents_of(values@);
            proof {
                lemma_leaf_holds(before, node_id, ks, vs);
                lemma_leaf_without(ks, vs, lo, hi, key@);
            }
            let removed = match find_key(&keys, key) {
                Ok(i) => {
                    assert(ks[i as int] == key@);
                    keys.remove(i);
                    values.remove(i);
                    proof {
                        assert(contents_of(keys@) =~= ks.remove(i as int));
                        assert(contents_of(values@) =~= vs.remove(i as int));
                        let v = choose|v: Seq<u8>| leaf_has(ks, vs, key@, v);
                        assert(leaf_has(ks, vs, key@, v));
                        assert(has(before, node_id, key@, v));
                    }
                    true
                },
                Err(i) => {
                    proof {
                        if i < ks.len() {
                            assert(ks[i as int] == keys@[i as int]@);
                            key_order_is_strict(key@, key@);
                        }
                        assert forall|v: Seq<u8>| !#[trigger] has(before, node_id, key@, v) by {
                            assert(!leaf_has(ks, vs, key@, v));
                        }
                    }
                    false
                },
            };
            let new_id: PageId = ctx.take_page();
            let node = Node::Leaf { keys, values };
            assert(node@ == leaf_without(ks, vs, key@));
            ctx.put_node(new_id, node);
            assert(ctx.nodes() =~= delete_in(before, node_id, key@, start, depth).nodes);
            (new_id, removed)
        },
        Node::Internal { keys, mut children } => {
            let ghost ks = contents_of(keys@);
            let ghost cs = children@;
            let i: usize = child_index(&keys, key);
            let ghost below = fence_below(ks, lo, i as int);
            let ghost above = fence_above(ks, hi, i as int);
            let ghost less = (depth - 1) as nat;
            proof {
                lemma_branch(before, node_id, lo, hi, start as int, depth, key@);
                lemma_descent(before, node_id, lo, hi, start as int, depth, key@, i as int);
                lemma_delete_in(before, cs[i as int], key@, start, below, above, less);
            }
            let (child, removed) = delete_rec(ctx, children[i], key, Ghost(below), Ghost(above), Ghost(less));
            let ghost middle = *ctx;
            let ghost g = delete_in(before, cs[i as int], key@, start, less);
            assert(child == g.ids[0]) by {
                assert(seq![child][0] == child);
            }
            children[i] = child;
            let new_id: PageId = ctx.take_page();
            let node = Node::Internal { keys, children };
            assert(node@ == (NodeView::Internal { keys: ks, children: cs.update(i as int, child) }));
            ctx.put_node(new_id, node);
            proof {
                assert(ctx.nodes() =~= delete_in(before, node_id, key@, start, depth).nodes);
                lemma_adds_chain(*old(ctx), middle, *ctx);
                if removed {
                    let v = choose|v: Seq<u8>| has(before, cs[i as int], key@, v);
                    assert(has(before, node_id, key@, v));
                }
            }
            (new_id, removed)
        },
    }
}

/// Whether no leaf of a tree holds anything.
fn holds_nothing(
    pager: &Pager,
    overlay: &Overlay,
    node_id: PageId,
    Ghost(lo): Ghost<Seq<u8>>,
    Ghost(hi): Ghost<Option<Seq<u8>>>,
    Ghost(depth): Ghost<nat>,
) -> (r: bool)
    requires
        is_tree(visible(*pager, *overlay), node_id, lo, hi, page_ids(), depth),
    ensures
        r <==> forall|k: Seq<u8>, v: Seq<u8>| !#[trigger] has(visible(*pager, *overlay), node_id, k, v),
    decreases depth,
{
    let ghost nodes = visible(*pager, *overlay);
    match read_node(pager, overlay, node_id) {
        Node::Leaf { keys, values } => {
            proof {
                lemma_leaf_holds(nodes, node_id, contents_of(keys@), contents_of(values@));
                if keys@.len() > 0 {
                    let k = contents_of(keys@)[0];
                    let v = contents_of(values@)[0];
                    assert(leaf_has(contents_of(keys@), contents_of(values@), k, v));
                    assert(has(nodes, node_id, k, v));
                }
            }
            keys.len() == 0
        },
        Node::Internal { keys, children } => {
            proof {
                an_internal_node_holds_what_its_children_hold(nodes, node_id);
            }
            let mut i: usize = 0;
            while i < children.len()
                invariant
                    i <= children@.len(),
                    nodes == visible(*pager, *overlay),
                    is_tree(nodes, node_id, lo, hi, page_ids(), depth),
                    nodes[node_id] == (NodeView::Internal { keys: contents_of(keys@), children: children@ }),
                    forall|k: Seq<u8>, v: Seq<u8>| #[trigger]
                        has(nodes, node_id, k, v) <==> family_has(nodes, children@, k, v),
                    forall|j: int, k: Seq<u8>, v: Seq<u8>| 0 <= j < i ==> !#[trigger] has(nodes, children@[j], k, v),
                decreases children@.len() - i,
            {
                let ghost below = fence_below(contents_of(keys@), lo, i as int);
                let ghost above = fence_above(contents_of(keys@), hi, i as int);
                assert(is_tree(nodes, children@[i as int], below, above, page_ids(), (depth - 1) as nat));
                if !holds_nothing(pager, overlay, children[i], Ghost(below), Ghost(above), Ghost((depth - 1) as nat)) {
                    proof {
                        let (k, v) = choose|k: Seq<u8>, v: Seq<u8>| has(nodes, children@[i as int], k, v);
                        assert(family_has(nodes, children@, k, v));
                        assert(has(nodes, node_id, k, v));
                    }
                    return false;
                }
                i += 1;
            }
            true
        },
    }
}

/// Removes what is stored under `key`. Returns the new root, none where nothing
/// is left, and whether there was anything under the key. What the old root
/// stands for is left as it was.
#[verifier::rlimit(40)]
pub fn delete(
    pager: &Pager,
    overlay: &mut Overlay,
    next_page: &mut PageId,
    root: Option<PageId>,
    key: &[u8],
) -> (r: (Option<PageId>, bool))
    requires
        is_store(visible(*pager, *old(overlay)), root, *old(next_page) as int),
        *old(next_page) + path_len(visible(*pager, *old(overlay)), root, key@) <= u64::MAX,
    ensures
        ({
            let g = delete_under(visible(*pager, *old(overlay)), root, key@, *old(next_page));
            &&& visible(*pager, *final(overlay)) == g.nodes
            &&& *final(next_page) == g.next
            &&& r.0 == (if g.ids.len() == 0 {
                None
            } else {
                Some(g.ids[0])
            })
        }),
        r.1 <==> contents(visible(*pager, *old(overlay)), root).contains_key(key@),
        is_store(visible(*pager, *final(overlay)), r.0, *final(next_page) as int),
        contents(visible(*pager, *final(overlay)), r.0) == contents(visible(*pager, *old(overlay)), root).remove(key@),
        r.0 is None <==> contents(visible(*pager, *old(overlay)), root).remove(key@).is_empty(),
        height(visible(*pager, *final(overlay)), r.0) <= height(visible(*pager, *old(overlay)), root),
        is_even(visible(*pager, *old(overlay)), root) ==> is_even(visible(*pager, *final(overlay)), r.0),
        is_store(visible(*pager, *final(overlay)), root, *old(next_page) as int),
        contents(visible(*pager, *final(overlay)), root) == contents(visible(*pager, *old(overlay)), root),
        r.0 matches Some(id) ==> *old(next_page) <= id < *final(next_page),
        root is None ==> *final(overlay) == *old(overlay),
        *final(next_page) == *old(next_page) + path_len(visible(*pager, *old(overlay)), root, key@),
        added(*old(overlay), *final(overlay), *old(next_page), *final(next_page)),
        extends(
            visible(*pager, *old(overlay)),
            visible(*pager, *final(overlay)),
            *old(next_page),
            *final(next_page),
        ),
        all_sized(visible(*pager, *final(overlay)), *old(next_page), *final(next_page)),
        none_larger(
            visible(*pager, *old(overlay)),
            visible(*pager, *final(overlay)),
            *old(next_page),
            *final(next_page),
        ),
{
    let ghost before = visible(*pager, *overlay);
    let ghost left = contents(before, root).remove(key@);
    let first_page: PageId = *next_page;
    proof {
        contents_are_the_pairs(before, root, first_page as int);
        the_empty_key_comes_first(key@);
        a_delete_removes_the_key(before, root, key@, first_page);
    }
    let root_id: PageId = match root {
        Some(root_id) => root_id,
        None => {
            proof {
                if contents(before, root).contains_key(key@) {
                    assert(holds_pair(before, root, key@, contents(before, root)[key@]));
                }
            }
            return (None, false);
        },
    };
    let ghost depth = depth_of(before, root_id);
    proof {
        lemma_delete_in(before, root_id, key@, first_page, Seq::empty(), None, depth);
    }
    let mut taken: Overlay = HashMap::new();
    std::mem::swap(overlay, &mut taken);
    let mut ctx = Ctx { pager, overlay: taken, next_page: first_page };
    let (new_root_id, removed) = delete_rec(&mut ctx, root_id, key, Ghost(Seq::empty()), Ghost(None), Ghost(depth));
    let ghost after = ctx.nodes();
    let ghost g = delete_in(before, root_id, key@, first_page, depth);
    proof {
        assert(seq![new_root_id][0] == new_root_id);
        assert(new_root_id == g.ids[0]);
        lemma_tree_at(after, new_root_id, Seq::empty(), None, g.next as int, depth, page_ids(), depth);
        let m = contents(before, root);
        if removed {
            let v = choose|v: Seq<u8>| has(before, root_id, key@, v);
            assert(holds_pair(before, root, key@, v));
        }
        if m.contains_key(key@) {
            assert(holds_pair(before, root, key@, m[key@]));
        }
    }
    let nothing_left = holds_nothing(
        pager,
        &ctx.overlay,
        new_root_id,
        Ghost(Seq::empty()),
        Ghost(None),
        Ghost(depth),
    );
    proof {
        if nothing_left {
            assert forall|k: Seq<u8>| !left.contains_key(k) by {
                if left.contains_key(k) {
                    assert(holds_pair(before, root, k, left[k]));
                    assert(has(after, new_root_id, k, left[k]) <==> after_delete(before, root_id, key@, k, left[k]));
                }
            }
            assert(left =~= Map::empty());
        } else {
            let (k, v) = choose|k: Seq<u8>, v: Seq<u8>| has(after, new_root_id, k, v);
            assert(has(after, new_root_id, k, v) <==> after_delete(before, root_id, key@, k, v));
            assert(holds_pair(before, root, k, v));
            assert(left.dom().contains(k));
        }
    }
    *next_page = ctx.next_page;
    *overlay = ctx.overlay;
    if nothing_left {
        (None, removed)
    } else {
        (Some(new_root_id), removed)
    }
}

/// How many nodes there are on the way to the leaf that `key` belongs to, if
/// there are no more than `most`.
pub fn path_len_up_to(pager: &Pager, overlay: &Overlay, root: Option<PageId>, key: &[u8], most: u64) -> (r: Option<
    u64,
>)
    requires
        is_store(visible(*pager, *overlay), root, page_ids()),
    ensures
        r == (if path_len(visible(*pager, *overlay), root, key@) <= most {
            Some(path_len(visible(*pager, *overlay), root, key@) as u64)
        } else {
            None
        }),
{
    let ghost nodes = visible(*pager, *overlay);
    let mut cur: PageId = match root {
        Some(id) => id,
        None => {
            return Some(0);
        },
    };
    let ghost mut lo: Seq<u8> = Seq::empty();
    let ghost mut hi: Option<Seq<u8>> = None;
    let ghost mut depth: nat = depth_of(nodes, cur);
    let mut passed: u64 = 0;
    proof {
        the_empty_key_comes_first(key@);
    }
    loop
        invariant
            nodes == visible(*pager, *overlay),
            is_tree(nodes, cur, lo, hi, page_ids(), depth),
            within(key@, lo, hi),
            passed <= most,
            path_len(nodes, root, key@) == passed + steps(nodes, cur, key@, depth),
        decreases depth,
    {
        proof {
            lemma_steps(nodes, cur, lo, hi, page_ids(), depth, key@);
        }
        if passed == most {
            return None;
        }
        passed += 1;
        match read_node(pager, overlay, cur) {
            Node::Leaf { .. } => {
                return Some(passed);
            },
            Node::Internal { keys, children } => {
                let i: usize = child_index(&keys, key);
                proof {
                    let list = contents_of(keys@);
                    lemma_branch(nodes, cur, lo, hi, page_ids(), depth, key@);
                    depth = (depth - 1) as nat;
                    lo = fence_below(list, lo, i as int);
                    hi = fence_above(list, hi, i as int);
                }
                cur = children[i];
            },
        }
    }
}

/// The page for a node.
pub fn encode_node(node: &Node) -> (page: [u8; PAGE_SIZE])
    requires
        Node::body(node@).len() <= PAGE_CAPACITY,
    ensures
        page@ == page_for::<Node>(node@),
{
    encode_page(node)
}

} // verus!
