//! What holds of the store as a whole, said of keys, bytes, page ids and maps:
//! what a range has, how far page ids go, what can be committed, which record a
//! file is opened with, and what a crash may leave.

use vstd::bytes::spec_u32_to_le_bytes;
use vstd::prelude::*;

use super::btree::{bound_of, rows_of, stored_nodes, visible, Node, NodeView, Overlay};
use super::chain::{chained, is_chain, lemma_chain_grown, lemma_chain_shortened, lemma_empty_chain, link_at};
use super::codec::{holds, page_for, page_holds_one_record, record_in, PageRecord};
use super::freelist::{last_chunk_first, pages_for, FreeEntry, FreeListPage, FreeListView};
use super::growth::{
    a_node_that_a_page_can_hold_can_stand_in_a_tree, a_path_is_no_longer_than_the_store_is_high, changed_at, cut_fits,
    delete_in, delete_under, internal_with, leaf_with, leaf_without, put_in, put_under, settled, within_budget,
};
use super::keys::{
    a_branch_is_the_only_one, a_place_is_the_only_one, ascending, contents_of, is_branch, is_place, key_le, key_lt,
    key_order_is_strict, key_order_is_total, key_order_is_transitive, nondescending, not_after_is_before_or_equal,
};
use super::overflow::{OverflowPage, OverflowView};
use super::pager::{
    applied, changes_of, extended, first_changes, has_page, is_steady, lemma_meta_fits, meta_in, meta_on, page_at,
    page_count, recovered, replayed, wrote, Change, FileOp, Meta, PageId, Pager,
};
use super::store::{
    commit_changes, crash_leaves, is_store_file, latest, may_remain, stored, stored_free_list, touches,
};
use super::tree::{
    a_leaf_holds_its_entries, a_list_is_the_only_one, a_tree_is_less_deep_than_it_has_pages,
    an_internal_node_holds_what_its_children_hold, contents, depth_of, entry_fits, fence_above, fence_below, has,
    height, holds_pair, in_bounds, in_key_order, is_even, is_level, is_store, is_tree, lemma_store_widened,
    lemma_tree_depth, lists, page_ids, separates, within, Nodes, Row,
};
use super::txn::{is_committed_over, watermark_of, Environment, WriteTxn};
use super::wire::{
    crc32, internal_bytes, leaf_bytes, lemma_integers, linked_blob_bytes, linked_pairs_bytes, meta_bytes,
};

verus! {

// ---------------------------------------------------------------------------
// Ranges
// ---------------------------------------------------------------------------

/// A range has, in key order and each once, the pairs whose keys are not before
/// its start and before its end: all of them, and nothing else. The start is
/// included, and the end is not.
pub proof fn a_range_has_what_lies_between_its_bounds(
    rows: Seq<Row>,
    m: Map<Seq<u8>, Seq<u8>>,
    start: Option<Seq<u8>>,
    end: Option<Seq<u8>>,
)
    requires
        lists(rows, m, start, end),
    ensures
        forall|i: int, j: int| 0 <= i < j < rows.len() ==> key_lt((#[trigger] rows[i]).0, (#[trigger] rows[j]).0),
        forall|i: int|
            0 <= i < rows.len() ==> {
                &&& m.contains_key((#[trigger] rows[i]).0)
                &&& rows[i].1 == m[rows[i].0]
                &&& start matches Some(s) ==> rows[i].0 == s || key_lt(s, rows[i].0)
                &&& end matches Some(e) ==> rows[i].0 != e && key_lt(rows[i].0, e)
            },
        forall|key: Seq<u8>| #[trigger]
            m.contains_key(key) && (start matches Some(s) ==> key == s || key_lt(s, key)) && (end matches Some(e)
                ==> key_lt(key, e)) ==> rows.contains((key, m[key])),
{
    assert forall|i: int| 0 <= i < rows.len() implies {
        &&& m.contains_key((#[trigger] rows[i]).0)
        &&& rows[i].1 == m[rows[i].0]
        &&& start matches Some(s) ==> rows[i].0 == s || key_lt(s, rows[i].0)
        &&& end matches Some(e) ==> rows[i].0 != e && key_lt(rows[i].0, e)
    } by {
        assert(rows.contains((rows[i].0, rows[i].1)));
        if let Some(s) = start {
            not_after_is_before_or_equal(s, rows[i].0);
        }
        if let Some(e) = end {
            key_order_is_strict(e, e);
        }
    }
    assert forall|key: Seq<u8>| #[trigger]
        m.contains_key(key) && (start matches Some(s) ==> key == s || key_lt(s, key)) && (end matches Some(e)
            ==> key_lt(key, e)) implies rows.contains((key, m[key])) by {
        if let Some(s) = start {
            not_after_is_before_or_equal(s, key);
        }
        assert(in_bounds(key, start, end));
    }
}

/// A range without bounds has everything.
pub proof fn a_range_without_bounds_has_everything(rows: Seq<Row>, m: Map<Seq<u8>, Seq<u8>>)
    requires
        lists(rows, m, None, None),
    ensures
        forall|key: Seq<u8>| #[trigger] m.contains_key(key) ==> rows.contains((key, m[key])),
        forall|i: int| 0 <= i < rows.len() ==> m.contains_key((#[trigger] rows[i]).0) && m[rows[i].0] == rows[i].1,
{
    a_range_has_what_lies_between_its_bounds(rows, m, None, None);
}

/// Where one range ends and another begins with the same key, they share no row,
/// and one after the other they are the range over both.
pub proof fn adjacent_ranges_make_one(
    first: Seq<Row>,
    second: Seq<Row>,
    both: Seq<Row>,
    m: Map<Seq<u8>, Seq<u8>>,
    start: Option<Seq<u8>>,
    middle: Seq<u8>,
    end: Option<Seq<u8>>,
)
    requires
        lists(first, m, start, Some(middle)),
        lists(second, m, Some(middle), end),
        lists(both, m, start, end),
        start matches Some(s) ==> s == middle || key_lt(s, middle),
        end matches Some(e) ==> middle == e || key_lt(middle, e),
    ensures
        both == first + second,
        forall|i: int, j: int|
            0 <= i < first.len() && 0 <= j < second.len() ==> (#[trigger] first[i]).0 != (#[trigger] second[j]).0,
{
    let all = first + second;
    a_range_has_what_lies_between_its_bounds(first, m, start, Some(middle));
    a_range_has_what_lies_between_its_bounds(second, m, Some(middle), end);
    assert forall|i: int, j: int| 0 <= i < first.len() && 0 <= j < second.len() implies key_lt(
        (#[trigger] first[i]).0,
        (#[trigger] second[j]).0,
    ) && first[i].0 != second[j].0 by {
        key_order_is_transitive(first[i].0, middle, second[j].0);
        key_order_is_strict(first[i].0, first[i].0);
    }
    assert forall|i: int, j: int| 0 <= i < j < all.len() implies key_lt((#[trigger] all[i]).0, (#[trigger] all[j]).0) by {
        if j < first.len() {
            assert(all[i] == first[i] && all[j] == first[j]);
        } else if i < first.len() {
            assert(all[i] == first[i] && all[j] == second[j - first.len()]);
        } else {
            assert(all[i] == second[i - first.len()] && all[j] == second[j - first.len()]);
        }
    }
    assert(in_key_order(all));
    assert forall|key: Seq<u8>, value: Seq<u8>| #[trigger] all.contains((key, value)) <==> m.contains_key(key)
        && m[key] == value && in_bounds(key, start, end) by {
        if all.contains((key, value)) {
            let i = choose|i: int| 0 <= i < all.len() && all[i] == (key, value);
            if i < first.len() {
                assert(first[i] == (key, value));
                assert(first.contains((key, value)));
                if let Some(e) = end {
                    key_order_is_transitive(key, middle, e);
                }
            } else {
                assert(second[i - first.len()] == (key, value));
                assert(second.contains((key, value)));
                if let Some(s) = start {
                    key_order_is_transitive(s, middle, key);
                    not_after_is_before_or_equal(s, middle);
                }
            }
        }
        if m.contains_key(key) && m[key] == value && in_bounds(key, start, end) {
            key_order_is_total(key, middle);
            if key_lt(key, middle) {
                assert(first.contains((key, value)));
                let i = choose|i: int| 0 <= i < first.len() && first[i] == (key, value);
                assert(all[i] == (key, value));
            } else {
                assert(key_le(middle, key));
                assert(second.contains((key, value)));
                let i = choose|i: int| 0 <= i < second.len() && second[i] == (key, value);
                assert(all[first.len() + i] == (key, value));
            }
        }
    }
    a_list_is_the_only_one(both, all, m, start, end);
}

/// A list of pairs of byte vectors stands for the pairs of their bytes, in the
/// same order, and a bound for its bytes.
pub proof fn rows_are_their_bytes(list: Seq<(Vec<u8>, Vec<u8>)>, bound: &[u8])
    ensures
        rows_of(list).len() == list.len(),
        forall|i: int| 0 <= i < list.len() ==> #[trigger] rows_of(list)[i] == (list[i].0@, list[i].1@),
        bound_of(Some(bound)) == Some(bound@),
        bound_of(None) is None,
{
}

/// Keys ascend where each comes before every later one, and do not descend
/// where each is the same as or before every later one.
pub proof fn keys_ascend_one_after_the_other(list: Seq<Vec<u8>>)
    ensures
        ascending(contents_of(list)) <==> forall|i: int, j: int|
            0 <= i < j < list.len() ==> key_lt((#[trigger] list[i])@, (#[trigger] list[j])@),
        nondescending(contents_of(list)) <==> forall|i: int, j: int|
            0 <= i < j < list.len() ==> !key_lt((#[trigger] list[j])@, (#[trigger] list[i])@),
{
    let keys = contents_of(list);
    assert forall|i: int| 0 <= i < list.len() implies #[trigger] keys[i] == list[i]@ by {}
    if ascending(keys) {
        assert forall|i: int, j: int| 0 <= i < j < list.len() implies key_lt(
            (#[trigger] list[i])@,
            (#[trigger] list[j])@,
        ) by {
            assert(key_lt(keys[i], keys[j]));
        }
    }
    if nondescending(keys) {
        assert forall|i: int, j: int| 0 <= i < j < list.len() implies !key_lt(
            (#[trigger] list[j])@,
            (#[trigger] list[i])@,
        ) by {
            assert(key_le(keys[i], keys[j]));
        }
    }
    if forall|i: int, j: int| 0 <= i < j < list.len() ==> key_lt((#[trigger] list[i])@, (#[trigger] list[j])@) {
        assert forall|i: int, j: int| 0 <= i < j < keys.len() implies key_lt(
            #[trigger] keys[i],
            #[trigger] keys[j],
        ) by {
            assert(key_lt(list[i]@, list[j]@));
        }
    }
    if forall|i: int, j: int| 0 <= i < j < list.len() ==> !key_lt((#[trigger] list[j])@, (#[trigger] list[i])@) {
        assert forall|i: int, j: int| 0 <= i < j < keys.len() implies key_le(
            #[trigger] keys[i],
            #[trigger] keys[j],
        ) by {
            assert(!key_lt(list[j]@, list[i]@));
        }
    }
}

// ---------------------------------------------------------------------------
// Trees
// ---------------------------------------------------------------------------

/// A leaf that a page can hold is a tree, if its keys ascend and lie between the
/// bounds.
pub proof fn a_leaf_in_order_is_a_tree(
    nodes: Nodes,
    id: PageId,
    keys: Seq<Seq<u8>>,
    values: Seq<Seq<u8>>,
    lo: Seq<u8>,
    hi: Option<Seq<u8>>,
    limit: int,
    depth: nat,
)
    requires
        nodes.contains_key(id),
        nodes[id] == (NodeView::Leaf { keys, values }),
        id < limit,
        keys.len() == values.len(),
        4 + Node::body(nodes[id]).len() <= 4096,
        forall|i: int, j: int| 0 <= i < j < keys.len() ==> key_lt(#[trigger] keys[i], #[trigger] keys[j]),
        forall|i: int| 0 <= i < keys.len() ==> lo == #[trigger] keys[i] || key_lt(lo, keys[i]),
        hi matches Some(h) ==> forall|i: int| 0 <= i < keys.len() ==> key_lt(#[trigger] keys[i], h),
    ensures
        is_tree(nodes, id, lo, hi, limit, depth),
{
    a_node_that_a_page_can_hold_can_stand_in_a_tree(nodes[id]);
    assert forall|i: int| 0 <= i < keys.len() implies within(#[trigger] keys[i], lo, hi) by {
        not_after_is_before_or_equal(lo, keys[i]);
    }
}

/// A node over trees that a page can hold is a tree, if its separators do not
/// descend and lie between the bounds, and the keys of each child lie between the
/// separators beside it. How the pages are numbered does not matter.
pub proof fn a_node_over_trees_is_a_tree(
    nodes: Nodes,
    id: PageId,
    keys: Seq<Seq<u8>>,
    children: Seq<PageId>,
    lo: Seq<u8>,
    hi: Option<Seq<u8>>,
    limit: int,
    depth: nat,
)
    requires
        nodes.contains_key(id),
        nodes[id] == (NodeView::Internal { keys, children }),
        id < limit,
        children.len() == keys.len() + 1,
        4 + Node::body(nodes[id]).len() <= 4096,
        forall|i: int, j: int| 0 <= i < j < keys.len() ==> !key_lt(#[trigger] keys[j], #[trigger] keys[i]),
        forall|i: int| 0 <= i < keys.len() ==> lo == #[trigger] keys[i] || key_lt(lo, keys[i]),
        hi matches Some(h) ==> forall|i: int| 0 <= i < keys.len() ==> h == #[trigger] keys[i] || key_lt(keys[i], h),
        forall|i: int|
            #![trigger children[i]]
            0 <= i < children.len() ==> is_tree(
                nodes,
                children[i],
                if i == 0 {
                    lo
                } else {
                    keys[i - 1]
                },
                if i == keys.len() {
                    hi
                } else {
                    Some(keys[i])
                },
                limit,
                depth,
            ),
    ensures
        is_tree(nodes, id, lo, hi, limit, depth + 1),
{
    a_node_that_a_page_can_hold_can_stand_in_a_tree(nodes[id]);
    assert forall|i: int| 0 <= i < keys.len() implies separates(#[trigger] keys[i], lo, hi) by {
        not_after_is_before_or_equal(lo, keys[i]);
        if let Some(h) = hi {
            not_after_is_before_or_equal(keys[i], h);
        }
    }
    assert(((depth + 1) - 1) as nat == depth);
    assert(nondescending(keys));
    assert forall|i: int| #![trigger children[i]] 0 <= i < children.len() implies is_tree(
        nodes,
        children[i],
        fence_below(keys, lo, i),
        fence_above(keys, hi, i),
        limit,
        depth,
    ) by {
        assert(is_tree(
            nodes,
            children[i],
            if i == 0 {
                lo
            } else {
                keys[i - 1]
            },
            if i == keys.len() {
                hi
            } else {
                Some(keys[i])
            },
            limit,
            depth,
        ));
    }
}

/// A tree of any depth whose keys have no bounds is a store, and so is no tree.
pub proof fn a_tree_is_a_store(nodes: Nodes, id: PageId, limit: int, depth: nat)
    requires
        is_tree(nodes, id, Seq::empty(), None, limit, depth),
    ensures
        is_store(nodes, Some(id), limit),
        is_store(nodes, None, limit),
        limit <= 0x1_0000_0000_0000_0000 ==> is_store(nodes, Some(id), page_ids()),
        page_ids() == 0x1_0000_0000_0000_0000,
{
    lemma_tree_depth(nodes, id, Seq::empty(), None, limit, depth);
    if limit <= page_ids() {
        lemma_store_widened(nodes, Some(id), limit, page_ids());
    }
}

/// A transaction sees its own nodes, and elsewhere what is stored.
pub proof fn own_nodes_hide_stored_ones(pager: Pager, overlay: Overlay, id: PageId)
    ensures
        overlay@.contains_key(id) ==> visible(pager, overlay).contains_key(id) && visible(pager, overlay)[id]
            == overlay@[id]@,
        !overlay@.contains_key(id) ==> (visible(pager, overlay).contains_key(id) <==> stored_nodes(
            pager.file(),
        ).contains_key(id)) && (stored_nodes(pager.file()).contains_key(id) ==> visible(pager, overlay)[id]
            == stored_nodes(pager.file())[id]),
{
}

/// What a file's latest record says is what the file is opened with.
pub proof fn a_file_holds_what_its_latest_record_refers_to(file: Seq<u8>, slot: u64, meta: Meta)
    requires
        recovered(file) == Some((slot, meta)),
    ensures
        latest(file) == meta,
        stored(file) == contents(stored_nodes(file), meta.root),
        stored_free_list(file) == chained::<FreeListPage>(file, meta.free_list_head),
{
}

/// A file in which the latest record refers to a tree and to a chain of free
/// pages, all before the next free page, is that of a store.
pub proof fn a_tree_and_a_free_list_make_a_store(file: Seq<u8>, slot: u64, meta: Meta, depth: nat)
    requires
        recovered(file) == Some((slot, meta)),
        meta.next_page >= 2,
        meta.root matches Some(id) ==> is_tree(
            stored_nodes(file),
            id,
            Seq::empty(),
            None,
            meta.next_page as int,
            depth,
        ),
        is_chain::<FreeListPage>(file, meta.free_list_head, 2, meta.next_page as int),
    ensures
        is_store_file(file),
{
    if let Some(id) = meta.root {
        lemma_tree_depth(stored_nodes(file), id, Seq::empty(), None, meta.next_page as int, depth);
    }
}

/// A node is in the store if a page behind the meta pages holds it.
pub proof fn a_node_is_stored_if_a_page_holds_it(file: Seq<u8>, id: PageId, node: NodeView)
    requires
        id >= 2,
    ensures
        stored_nodes(file).contains_key(id) && stored_nodes(file)[id] == node <==> 4096 * id + 4096 <= file.len()
            && record_in::<Node>(file.subrange(4096 * id, 4096 * id + 4096)) == Some(node),
{
    if 4096 * id + 4096 <= file.len() {
        assert(page_at(file, id as int) =~= file.subrange(4096 * id, 4096 * id + 4096));
    }
}

/// The tree of a single leaf holds what stands in the leaf's lists, and a tree
/// under a node holds what the trees of its children hold.
pub proof fn a_tree_holds_what_its_leaves_hold(nodes: Nodes, id: PageId, key: Seq<u8>, value: Seq<u8>)
    ensures
        nodes[id] matches NodeView::Leaf { keys, values } ==> (holds_pair(nodes, Some(id), key, value) <==> exists|i: int|
            0 <= i < keys.len() && #[trigger] keys[i] == key && values[i] == value),
        nodes[id] matches NodeView::Internal { keys, children } ==> (holds_pair(nodes, Some(id), key, value) <==> exists|
            i: int,
        |
            0 <= i < children.len() && holds_pair(nodes, Some(#[trigger] children[i]), key, value)),
        !holds_pair(nodes, None, key, value),
{
    match nodes[id] {
        NodeView::Leaf { keys, values } => {
            a_leaf_holds_its_entries(nodes, id);
        },
        NodeView::Internal { keys, children } => {
            an_internal_node_holds_what_its_children_hold(nodes, id);
            if has(nodes, id, key, value) {
                let i = choose|i: int| 0 <= i < children.len() && has(nodes, #[trigger] children[i], key, value);
                assert(holds_pair(nodes, Some(children[i]), key, value));
            }
            if exists|i: int| 0 <= i < children.len() && holds_pair(nodes, Some(#[trigger] children[i]), key, value) {
                let i = choose|i: int|
                    0 <= i < children.len() && holds_pair(nodes, Some(#[trigger] children[i]), key, value);
                assert(has(nodes, children[i], key, value));
            }
        },
    }
}

/// In an even tree every leaf is as many steps from the root as every other.
pub proof fn an_even_tree_has_its_leaves_at_one_depth(nodes: Nodes, id: PageId, depth: nat)
    ensures
        is_even(nodes, Some(id)) ==> is_level(nodes, id, (height(nodes, Some(id)) - 1) as nat),
        is_level(nodes, id, depth) <==> match nodes[id] {
            NodeView::Leaf { keys, values } => depth == 0,
            NodeView::Internal { keys, children } => depth > 0 && forall|i: int|
                #![trigger children[i]]
                0 <= i < children.len() ==> is_level(nodes, children[i], (depth - 1) as nat),
        },
        height(nodes, None) == 0,
{
}

/// A leaf that takes no more than 3072 bytes stays whole. A larger one is cut in
/// the middle, if a page can hold each half, and its middle key goes up.
pub proof fn a_large_leaf_is_cut_in_the_middle(
    nodes: Nodes,
    keys: Seq<Seq<u8>>,
    values: Seq<Seq<u8>>,
    at: int,
    start: PageId,
)
    requires
        keys.len() == values.len(),
        start + 2 <= u64::MAX,
    ensures
        ({
            let whole = NodeView::Leaf { keys, values };
            let n = keys.len() as int;
            let left = NodeView::Leaf { keys: keys.subrange(0, n / 2), values: values.subrange(0, n / 2) };
            let right = NodeView::Leaf { keys: keys.subrange(n / 2, n), values: values.subrange(n / 2, n) };
            let g = settled(nodes, whole, at, start);
            &&& 4 + Node::body(whole).len() <= 3072 ==> {
                &&& g.ids == seq![start]
                &&& g.seps == Seq::<Seq<u8>>::empty()
                &&& g.next == start + 1
                &&& g.nodes == nodes.insert(start, whole)
            }
            &&& 4 + Node::body(whole).len() > 3072 && 4 + Node::body(left).len() <= 4096 && 4 + Node::body(right).len()
                <= 4096 ==> {
                &&& g.ids == seq![start, (start + 1) as PageId]
                &&& g.seps == seq![keys[n / 2]]
                &&& g.next == start + 2
                &&& g.nodes == nodes.insert(start, left).insert((start + 1) as PageId, right)
            }
        }),
{
    let whole = NodeView::Leaf { keys, values };
    let n = keys.len() as int;
    let left = NodeView::Leaf { keys: keys.subrange(0, n / 2), values: values.subrange(0, n / 2) };
    let right = NodeView::Leaf { keys: keys.subrange(n / 2, n), values: values.subrange(n / 2, n) };
    let g = settled(nodes, whole, at, start);
    if 4 + Node::body(whole).len() <= 3072 {
        assert(g.nodes =~= nodes.insert(start, whole));
        assert(g.ids =~= seq![start]);
        assert(g.seps =~= Seq::<Seq<u8>>::empty());
    } else if 4 + Node::body(left).len() <= 4096 && 4 + Node::body(right).len() <= 4096 {
        assert(cut_fits(whole, n / 2));
        assert(g.nodes =~= nodes.insert(start, left).insert((start + 1) as PageId, right));
        assert(g.ids =~= seq![start, (start + 1) as PageId]);
        assert(g.seps =~= seq![keys[n / 2]]);
    }
}

/// As of a leaf, of a node over others: its middle separator goes up and stays in
/// neither half.
pub proof fn a_large_node_is_cut_in_the_middle(
    nodes: Nodes,
    keys: Seq<Seq<u8>>,
    children: Seq<PageId>,
    at: int,
    start: PageId,
)
    requires
        children.len() == keys.len() + 1,
        keys.len() > 0,
        start + 2 <= u64::MAX,
    ensures
        ({
            let whole = NodeView::Internal { keys, children };
            let n = keys.len() as int;
            let left = NodeView::Internal { keys: keys.subrange(0, n / 2), children: children.subrange(0, n / 2 + 1) };
            let right = NodeView::Internal {
                keys: keys.subrange(n / 2 + 1, n),
                children: children.subrange(n / 2 + 1, n + 1),
            };
            let g = settled(nodes, whole, at, start);
            &&& 4 + Node::body(whole).len() <= 3072 ==> {
                &&& g.ids == seq![start]
                &&& g.seps == Seq::<Seq<u8>>::empty()
                &&& g.next == start + 1
                &&& g.nodes == nodes.insert(start, whole)
            }
            &&& 4 + Node::body(whole).len() > 3072 && 4 + Node::body(left).len() <= 4096 && 4 + Node::body(right).len()
                <= 4096 ==> {
                &&& g.ids == seq![start, (start + 1) as PageId]
                &&& g.seps == seq![keys[n / 2]]
                &&& g.next == start + 2
                &&& g.nodes == nodes.insert(start, left).insert((start + 1) as PageId, right)
            }
        }),
{
    let whole = NodeView::Internal { keys, children };
    let n = keys.len() as int;
    let left = NodeView::Internal { keys: keys.subrange(0, n / 2), children: children.subrange(0, n / 2 + 1) };
    let right = NodeView::Internal { keys: keys.subrange(n / 2 + 1, n), children: children.subrange(n / 2 + 1, n + 1) };
    let g = settled(nodes, whole, at, start);
    if 4 + Node::body(whole).len() <= 3072 {
        assert(g.nodes =~= nodes.insert(start, whole));
        assert(g.ids =~= seq![start]);
        assert(g.seps =~= Seq::<Seq<u8>>::empty());
    } else if 4 + Node::body(left).len() <= 4096 && 4 + Node::body(right).len() <= 4096 {
        assert(cut_fits(whole, n / 2));
        assert(g.nodes =~= nodes.insert(start, left).insert((start + 1) as PageId, right));
        assert(g.ids =~= seq![start, (start + 1) as PageId]);
        assert(g.seps =~= seq![keys[n / 2]]);
    }
}

/// A put into a leaf replaces the value beside its key, or adds both where the
/// key belongs; a delete takes both away. Everything else of the leaf stays.
pub proof fn a_leaf_changes_where_its_key_belongs(
    keys: Seq<Seq<u8>>,
    values: Seq<Seq<u8>>,
    key: Seq<u8>,
    value: Seq<u8>,
    i: int,
)
    requires
        keys.len() == values.len(),
        ascending(keys),
        0 <= i <= keys.len(),
        forall|j: int| 0 <= j < i ==> key_lt(#[trigger] keys[j], key),
        forall|j: int| i <= j < keys.len() ==> key == #[trigger] keys[j] || key_lt(key, keys[j]),
    ensures
        i < keys.len() && keys[i] == key ==> leaf_with(keys, values, key, value) == (NodeView::Leaf {
            keys,
            values: values.update(i, value),
        }) && leaf_without(keys, values, key) == (NodeView::Leaf { keys: keys.remove(i), values: values.remove(i) }),
        !(i < keys.len() && keys[i] == key) ==> leaf_with(keys, values, key, value) == (NodeView::Leaf {
            keys: keys.insert(i, key),
            values: values.insert(i, value),
        }) && leaf_without(keys, values, key) == (NodeView::Leaf { keys, values }),
{
    assert(is_place(keys, key, i)) by {
        assert forall|j: int| i <= j < keys.len() implies !key_lt(#[trigger] keys[j], key) by {
            key_order_is_strict(key, keys[j]);
        }
    }
    a_place_is_the_only_one(keys, key, i);
}

/// A change goes down to the child that its key belongs to, and puts what became
/// of that child in its place: one new child, or several with what separates
/// them. All other children stay.
pub proof fn a_change_goes_to_the_child_that_its_key_belongs_to(
    nodes: Nodes,
    id: PageId,
    keys: Seq<Seq<u8>>,
    children: Seq<PageId>,
    key: Seq<u8>,
    value: Seq<u8>,
    start: PageId,
    depth: nat,
    i: int,
)
    requires
        nodes[id] == (NodeView::Internal { keys, children }),
        children.len() == keys.len() + 1,
        nondescending(keys),
        depth > 0,
        0 <= i <= keys.len(),
        forall|j: int| 0 <= j < i ==> key == #[trigger] keys[j] || key_lt(keys[j], key),
        forall|j: int| i <= j < keys.len() ==> key_lt(key, #[trigger] keys[j]),
    ensures
        ({
            let g = put_in(nodes, children[i], key, value, start, (depth - 1) as nat);
            let n = keys.len() as int;
            let node = NodeView::Internal {
                keys: keys.subrange(0, i) + g.seps + keys.subrange(i, n),
                children: children.subrange(0, i) + g.ids + children.subrange(i + 1, n + 1),
            };
            exists|at: int| put_in(nodes, id, key, value, start, depth) == #[trigger] settled(g.nodes, node, at, g.next)
        }),
        ({
            let g = delete_in(nodes, children[i], key, start, (depth - 1) as nat);
            let node = NodeView::Internal { keys, children: children.update(i, g.ids[0]) };
            let d = delete_in(nodes, id, key, start, depth);
            &&& d.ids == seq![g.next]
            &&& d.next == (g.next + 1) as PageId
            &&& g.next < u64::MAX ==> d.nodes == g.nodes.insert(g.next, node)
        }),
{
    assert(is_branch(keys, key, i)) by {
        assert forall|j: int| 0 <= j < i implies key_le(#[trigger] keys[j], key) by {
            not_after_is_before_or_equal(keys[j], key);
        }
    }
    a_branch_is_the_only_one(keys, key, i);
    let g = put_in(nodes, children[i], key, value, start, (depth - 1) as nat);
    let n = keys.len() as int;
    let node = NodeView::Internal {
        keys: keys.subrange(0, i) + g.seps + keys.subrange(i, n),
        children: children.subrange(0, i) + g.ids + children.subrange(i + 1, n + 1),
    };
    assert(internal_with(keys, children, i, g) == node);
    assert(put_in(nodes, id, key, value, start, depth) == settled(g.nodes, node, changed_at(node, i), g.next));
    let h = delete_in(nodes, children[i], key, start, (depth - 1) as nat);
    let after = NodeView::Internal { keys, children: children.update(i, h.ids[0]) };
    let d = delete_in(nodes, id, key, start, depth);
    if h.next < u64::MAX {
        assert(d.nodes =~= h.nodes.insert(h.next, after));
    }
}

/// The first pair makes a leaf. Later, what a put makes of the root is the new
/// root where it is one node; two nodes get one over them.
pub proof fn a_root_grows_by_a_node_over_its_halves(
    nodes: Nodes,
    id: PageId,
    key: Seq<u8>,
    value: Seq<u8>,
    start: PageId,
)
    requires
        start < u64::MAX,
    ensures
        ({
            let g = put_under(nodes, None, key, value, start);
            &&& g.ids == seq![start]
            &&& g.next == start + 1
            &&& g.nodes == nodes.insert(start, NodeView::Leaf { keys: seq![key], values: seq![value] })
        }),
        ({
            let part = put_in(nodes, id, key, value, start, depth_of(nodes, id));
            let g = put_under(nodes, Some(id), key, value, start);
            &&& part.seps.len() == 0 ==> g == part
            &&& part.seps.len() == 1 && part.next < u64::MAX ==> {
                &&& g.ids == seq![part.next]
                &&& g.next == part.next + 1
                &&& g.nodes == part.nodes.insert(
                    part.next,
                    NodeView::Internal { keys: part.seps, children: part.ids },
                )
            }
        }),
{
    let first = put_under(nodes, None, key, value, start);
    assert(first.nodes =~= nodes.insert(start, NodeView::Leaf { keys: seq![key], values: seq![value] }));
    let part = put_in(nodes, id, key, value, start, depth_of(nodes, id));
    let g = put_under(nodes, Some(id), key, value, start);
    if part.seps.len() == 1 && part.next < u64::MAX {
        assert(g.nodes =~= part.nodes.insert(part.next, NodeView::Internal { keys: part.seps, children: part.ids }));
    }
}

/// A delete leaves no root exactly where it leaves nothing.
pub proof fn a_delete_leaves_no_root_where_it_leaves_nothing(nodes: Nodes, id: PageId, key: Seq<u8>, start: PageId)
    ensures
        ({
            let part = delete_in(nodes, id, key, start, depth_of(nodes, id));
            let g = delete_under(nodes, Some(id), key, start);
            &&& g.nodes == part.nodes
            &&& g.next == part.next
            &&& g.ids == if contents(nodes, Some(id)).remove(key) == Map::<Seq<u8>, Seq<u8>>::empty() {
                Seq::empty()
            } else {
                part.ids
            }
        }),
        delete_under(nodes, None, key, start).nodes == nodes,
        delete_under(nodes, None, key, start).next == start,
        delete_under(nodes, None, key, start).ids.len() == 0,
{
    let left = contents(nodes, Some(id)).remove(key);
    if left.is_empty() {
        assert(left =~= Map::<Seq<u8>, Seq<u8>>::empty());
    }
}

/// The body of a record is what `bincode` writes of its fields in order, with the
/// number of its variant in front of a node.
pub proof fn a_record_is_its_fields_in_order(
    keys: Seq<Seq<u8>>,
    values: Seq<Seq<u8>>,
    children: Seq<PageId>,
    meta: Meta,
    list: FreeListView,
    part: OverflowView,
)
    ensures
        Node::body(NodeView::Leaf { keys, values }) == leaf_bytes(0, keys, values),
        Node::body(NodeView::Internal { keys, children }) == internal_bytes(1, keys, children),
        Meta::body(meta) == meta_bytes(meta.magic, meta.txn_id, meta.root, meta.next_page, meta.free_list_head),
        FreeListPage::body(list) == linked_pairs_bytes(list.next, list.entries),
        OverflowPage::body(part) == linked_blob_bytes(part.next, part.data),
{
}

// ---------------------------------------------------------------------------
// Room
// ---------------------------------------------------------------------------

/// A transaction's tree is no higher than it has taken page ids.
pub proof fn a_tree_is_no_higher_than_there_are_pages(txn: WriteTxn, env: Environment)
    requires
        txn.wf(env),
    ensures
        txn.height(env) <= txn.next_page(),
{
    if let Some(id) = txn.root() {
        let nodes = txn.nodes(env);
        let limit = txn.next_page() as int;
        let depth = depth_of(nodes, id);
        lemma_tree_depth(nodes, id, Seq::empty(), None, limit, depth);
        a_tree_is_less_deep_than_it_has_pages(nodes, id, Seq::empty(), None, limit, depth);
    }
}

/// A put of any key has room as long as three page ids are left for every level
/// of the tree, and three more.
pub proof fn there_is_room_to_put_while_page_ids_are_left(txn: WriteTxn, env: Environment, key: Seq<u8>)
    requires
        txn.wf(env),
        txn.next_page() + 3 * txn.height(env) + 3 <= 0xffff_ffff_ffff_ffff,
    ensures
        txn.room_to_put(env, key),
{
    a_path_is_no_longer_than_the_store_is_high(txn.nodes(env), txn.root(), txn.next_page() as int, key);
}

/// A delete of any key has room as long as a page id is left for every level of
/// the tree.
pub proof fn there_is_room_to_delete_while_page_ids_are_left(txn: WriteTxn, env: Environment, key: Seq<u8>)
    requires
        txn.wf(env),
        txn.next_page() + txn.height(env) <= 0xffff_ffff_ffff_ffff,
    ensures
        txn.room_to_delete(env, key),
{
    a_path_is_no_longer_than_the_store_is_high(txn.nodes(env), txn.root(), txn.next_page() as int, key);
}

/// In a store that has used no more than a quarter of the page ids that there
/// are, any record can be put or deleted, whatever its tree looks like.
pub proof fn a_quarter_of_the_page_ids_can_be_used(txn: WriteTxn, env: Environment, key: Seq<u8>)
    requires
        txn.wf(env),
        4 * txn.next_page() + 3 <= 0xffff_ffff_ffff_ffff,
    ensures
        txn.room_to_put(env, key),
        txn.room_to_delete(env, key),
{
    a_tree_is_no_higher_than_there_are_pages(txn, env);
    there_is_room_to_put_while_page_ids_are_left(txn, env, key);
    there_is_room_to_delete_while_page_ids_are_left(txn, env, key);
}

/// A key and a value of up to four megabytes together can be put.
pub proof fn a_pair_of_some_megabytes_can_be_put(key: Seq<u8>, value: Seq<u8>)
    requires
        key.len() + value.len() <= 4 * 1024 * 1024,
    ensures
        entry_fits(key, value),
{
}

// ---------------------------------------------------------------------------
// What can be committed
// ---------------------------------------------------------------------------

/// A transaction can be committed exactly if every node that it made takes no
/// more than a page with its checksum, its pages end within what can be
/// addressed, and there is another commit's number.
pub proof fn what_goes_into_pages_can_be_committed(txn: WriteTxn, env: Environment)
    requires
        txn.wf(env),
    ensures
        txn.can_be_stored(env) <==> {
            &&& forall|id: PageId|
                env.meta().next_page <= id < txn.next_page() ==> 4 + Node::body(#[trigger] txn.nodes(env)[id]).len()
                    <= 4096
            &&& txn.end_page() * 4096 <= usize::MAX
            &&& txn.base() < 0xffff_ffff_ffff_ffff
        },
        txn.nodes_fit(env) <==> forall|id: PageId|
            env.meta().next_page <= id < txn.next_page() ==> 4 + Node::body(#[trigger] txn.nodes(env)[id]).len()
                <= 4096,
        txn.next_page() <= txn.end_page() <= txn.next_page() + txn.free_list().len() + txn.retired().len(),
        txn.free_list().len() + txn.retired().len() == 0 ==> txn.end_page() == txn.next_page(),
{
    if forall|id: PageId|
        env.meta().next_page <= id < txn.next_page() ==> 4 + Node::body(#[trigger] txn.nodes(env)[id]).len() <= 4096 {
        assert(txn.nodes_fit(env));
    }
    if txn.nodes_fit(env) {
        assert forall|id: PageId| env.meta().next_page <= id < txn.next_page() implies 4 + Node::body(
            #[trigger] txn.nodes(env)[id],
        ).len() <= 4096 by {}
    }
}

/// A transaction that changed nothing yet, on a store whose file is not at its
/// limits, can be committed.
pub proof fn a_fresh_transaction_can_be_committed(txn: WriteTxn, env: Environment)
    requires
        txn.wf(env),
        txn.is_fresh(env),
        (txn.next_page() + txn.free_list().len()) * 4096 <= usize::MAX,
        env.meta().txn_id < 0xffff_ffff_ffff_ffff,
    ensures
        txn.can_be_stored(env),
        txn.contents(env) == env.contents(),
{
    what_goes_into_pages_can_be_committed(txn, env);
}

/// What is stored is within the budget exactly if each key with its value takes
/// no more than 4048 bytes.
pub proof fn the_budget_is_for_each_pair(m: Map<Seq<u8>, Seq<u8>>)
    ensures
        within_budget(m) <==> forall|key: Seq<u8>| #[trigger] m.contains_key(key) ==> key.len() + m[key].len() <= 4048,
{
}

/// The free list that a commit stores has the one that it began with, and every
/// page left behind with the number of the commit.
pub proof fn a_commit_keeps_its_books(txn: WriteTxn)
    requires
        txn.base() < u64::MAX,
    ensures
        ({
            let after = txn.free_list_after();
            let n = txn.free_list().len() as int;
            &&& after.len() == n + txn.retired().len()
            &&& forall|i: int| 0 <= i < n ==> #[trigger] after[i] == txn.free_list()[i]
            &&& forall|i: int| n <= i < after.len() ==> #[trigger] after[i] == ((txn.base() + 1) as u64, txn.retired()[i - n])
        }),
{
}

/// Writing pages asks for those pages and for nothing else, after what was asked
/// for before, and the file is what that makes of it.
pub proof fn writing_pages_asks_for_nothing_else(before: Pager, after: Pager, start: int, end: int)
    requires
        wrote(before, after, start, end),
    ensures
        ({
            let asked = before.outbox().len() as int;
            let all = after.outbox();
            &&& asked <= all.len()
            &&& all.take(asked) == before.outbox()
            &&& forall|i: int|
                asked <= i < all.len() ==> (#[trigger] all[i] matches Change::Write(id, page) && start <= id < end
                    && page.len() == 4096)
            &&& after.file() == replayed(before.file(), all.skip(asked))
            &&& after.slot() == before.slot()
        }),
{
    let asked = before.outbox().len() as int;
    let all = after.outbox();
    let changes = all.skip(asked);
    assert(all.len() == asked + changes.len());
    assert(all.take(asked) =~= before.outbox());
    assert forall|i: int| asked <= i < all.len() implies (#[trigger] all[i] matches Change::Write(id, page) && start <= id
        < end && page.len() == 4096) by {
        assert(changes[i - asked] == all[i]);
    }
}

/// Once it is committed, every node that a transaction made is on its own page of
/// the file.
pub proof fn a_commit_stores_every_node(txn: WriteTxn, before: Environment, after: Environment, id: PageId)
    requires
        txn.is_stored(before, after),
        before.meta().next_page <= id < txn.next_page(),
    ensures
        stored_nodes(after.file()).contains_key(id),
        stored_nodes(after.file())[id] == txn.nodes(before)[id],
{
    assert(stored_nodes(after.file()).contains_key(id));
}

/// A list of free pages takes a page for every two hundred entries.
pub proof fn a_free_list_takes_few_pages(len: int)
    requires
        0 <= len,
    ensures
        200 * pages_for(len) >= len,
        200 * pages_for(len) < len + 200,
{
}

/// A commit asks of the file: new pages, all of them durable; then its record in
/// the slot of the record before the last, durable too. It leaves everything
/// that the file was asked before as it was.
pub proof fn a_commit_makes_its_pages_durable_before_its_record(before: Environment, after: Environment)
    requires
        before.wf(),
        is_committed_over(before, after),
    ensures
        ({
            let asked = before.pager().outbox().len() as int;
            let all = after.pager().outbox();
            let n = all.len() as int;
            &&& asked + 3 <= n
            &&& all.take(asked) == before.pager().outbox()
            &&& forall|i: int|
                asked <= i < n - 3 ==> (#[trigger] all[i] matches Change::Write(id, page) && before.meta().next_page <= id
                    < after.meta().next_page && page.len() == 4096)
            &&& all[n - 3] == Change::Sync
            &&& all[n - 2] == Change::Write((1 - before.pager().slot()) as u64, page_for::<Meta>(after.meta()))
            &&& all[n - 1] == Change::Sync
            &&& after.file() == replayed(before.file(), all.skip(asked))
            &&& after.meta().txn_id > before.meta().txn_id
            &&& after.meta().next_page >= before.meta().next_page
        }),
{
    let asked = before.pager().outbox().len() as int;
    let all = after.pager().outbox();
    let n = all.len() as int;
    let changes = all.skip(asked);
    let data = changes.take(changes.len() - 3);
    let slot = before.pager().slot();
    assert(changes == commit_changes(data, slot, after.meta()));
    assert(changes.len() == data.len() + 3);
    assert(all.take(asked) =~= before.pager().outbox());
    assert forall|i: int| asked <= i < n - 3 implies (#[trigger] all[i] matches Change::Write(id, page)
        && before.meta().next_page <= id < after.meta().next_page && page.len() == 4096) by {
        assert(data[i - asked] == changes[i - asked]);
        assert(all[i] == data[i - asked]);
    }
    assert(all[n - 3] == changes[changes.len() - 3]);
    assert(all[n - 2] == changes[changes.len() - 2]);
    assert(all[n - 1] == changes[changes.len() - 1]);
}

/// What a new store asks of its file ends with everything durable, both meta
/// pages among it, and each is durable before the next is written.
pub proof fn a_new_store_is_made_durable()
    ensures
        ({
            let all = first_changes();
            let meta = Meta { magic: 0xC1C5_7B0B, txn_id: 0, root: None, next_page: 2, free_list_head: None };
            &&& all.len() == 5
            &&& all[0] == Change::SetLen(8192)
            &&& all[1] == Change::Write(0, page_for::<Meta>(meta))
            &&& all[2] == Change::Sync
            &&& all[3] == Change::Write(1, page_for::<Meta>(meta))
            &&& all[4] == Change::Sync
        }),
{
}

// ---------------------------------------------------------------------------
// Files and pages
// ---------------------------------------------------------------------------

/// A page's bytes begin in the file at its number times the page size, and a file
/// has the page if it reaches to the page's end.
pub proof fn a_page_is_where_its_number_says(file: Seq<u8>, id: int, i: int)
    requires
        0 <= id,
        0 <= i < 4096,
    ensures
        has_page(file, id) <==> 4096 * id + 4096 <= file.len(),
        has_page(file, id) ==> page_at(file, id).len() == 4096 && page_at(file, id)[i] == file[4096 * id + i],
        page_count(file) == file.len() as int / 4096,
{
}

/// Carrying out a write puts its bytes at the start of its page and leaves all
/// others; setting the length cuts off or adds zeros; a sync changes nothing.
pub proof fn a_change_does_what_it_asks(file: Seq<u8>, id: PageId, bytes: Seq<u8>, len: u64)
    requires
        bytes.len() == 4096,
    ensures
        ({
            let after = applied(file, Change::Write(id, bytes));
            let at = 4096 * id;
            &&& after.len() >= file.len() && after.len() >= at + 4096
            &&& after.len() == file.len() || after.len() == at + 4096
            &&& forall|i: int| 0 <= i < 4096 ==> #[trigger] after[at + i] == bytes[i]
            &&& forall|i: int|
                0 <= i < file.len() && !(at <= i < at + 4096) ==> #[trigger] after[i] == file[i]
            &&& forall|i: int| file.len() <= i < after.len() && !(at <= i < at + 4096) ==> #[trigger] after[i] == 0
        }),
        ({
            let after = applied(file, Change::SetLen(len));
            &&& after.len() == len
            &&& forall|i: int| 0 <= i < len && i < file.len() ==> #[trigger] after[i] == file[i]
            &&& forall|i: int| file.len() <= i < len ==> #[trigger] after[i] == 0
        }),
        applied(file, Change::Sync) == file,
{
    let after = applied(file, Change::Write(id, bytes));
    let at = 4096 * id;
    assert forall|i: int| 0 <= i < 4096 implies #[trigger] after[at + i] == bytes[i] by {
        assert(at + i - id * 4096 == i);
    }
}

/// Changes are carried out one after the other.
pub proof fn changes_follow_each_other(file: Seq<u8>, first: Seq<Change>, last: Change)
    ensures
        replayed(file, Seq::empty()) == file,
        replayed(file, first.push(last)) == applied(replayed(file, first), last),
{
    assert(first.push(last).drop_last() =~= first);
}

/// The pending operations stand for the changes that they ask for, in order.
pub proof fn operations_are_their_changes(ops: Seq<FileOp>, i: int)
    requires
        0 <= i < ops.len(),
    ensures
        changes_of(ops).len() == ops.len(),
        ops[i] matches FileOp::SetLen(len) ==> changes_of(ops)[i] == Change::SetLen(len),
        ops[i] matches FileOp::Write(id, bytes) ==> changes_of(ops)[i] == Change::Write(id, bytes@),
        ops[i] is Sync ==> changes_of(ops)[i] is Sync,
{
}

/// A page is read as a record only if its first four bytes are the checksum of
/// the record's body and the body follows them. Whatever is damaged in either is
/// noticed, as far as the checksum tells it.
pub proof fn a_page_is_read_only_with_its_checksum<T: PageRecord>(page: Seq<u8>, v: T::V)
    requires
        record_in::<T>(page) == Some(v),
    ensures
        page.len() == 4096,
        page.subrange(0, 4) == spec_u32_to_le_bytes(crc32(T::body(v))),
        T::body(v).len() <= 4092,
        page.subrange(4, 4 + T::body(v).len() as int) == T::body(v),
{
    assert(holds::<T>(page, v));
    let body = T::body(v);
    let rest = page.subrange(4, 4096);
    assert(body =~= rest.subrange(0, body.len() as int));
    assert(page.subrange(4, 4 + body.len() as int) =~= body) by {
        assert forall|i: int| 0 <= i < body.len() implies page.subrange(4, 4 + body.len() as int)[i] == body[i] by {
            assert(rest[i] == page[4 + i]);
        }
    }
}

/// A page with the checksum of a record's body and then the body is read as that
/// record, whatever follows.
pub proof fn a_page_with_its_checksum_is_read<T: PageRecord>(page: Seq<u8>, v: T::V)
    requires
        page.len() == 4096,
        page.subrange(0, 4) == spec_u32_to_le_bytes(crc32(T::body(v))),
        T::body(v).len() <= 4092,
        page.subrange(4, 4 + T::body(v).len() as int) == T::body(v),
    ensures
        record_in::<T>(page) == Some(v),
{
    let body = T::body(v);
    assert(body =~= page.subrange(4, 4096).subrange(0, body.len() as int)) by {
        assert(page.subrange(4, 4096).subrange(0, body.len() as int) =~= page.subrange(4, 4 + body.len() as int));
    }
    assert(holds::<T>(page, v));
    page_holds_one_record::<T>(page, v, record_in::<T>(page)->0);
}

/// The page that is written for a record has its checksum, its body, and zeros
/// up to its end.
pub proof fn a_written_page_is_checksum_body_and_zeros<T: PageRecord>(v: T::V)
    requires
        T::body(v).len() <= 4092,
    ensures
        page_for::<T>(v).len() == 4096,
        page_for::<T>(v).subrange(0, 4) == spec_u32_to_le_bytes(crc32(T::body(v))),
        page_for::<T>(v).subrange(4, 4 + T::body(v).len() as int) == T::body(v),
        forall|i: int| 4 + T::body(v).len() <= i < 4096 ==> #[trigger] page_for::<T>(v)[i] == 0,
{
    lemma_integers();
    assert(page_for::<T>(v).subrange(0, 4) =~= spec_u32_to_le_bytes(crc32(T::body(v))));
    assert(page_for::<T>(v).subrange(4, 4 + T::body(v).len() as int) =~= T::body(v));
}

/// A file is opened with the newest of its two meta records that can be read,
/// the first one where both are equally new, and is corrupt where neither can.
pub proof fn the_newest_readable_record_is_recovered(file: Seq<u8>)
    ensures
        match recovered(file) {
            Some((slot, meta)) => {
                &&& slot == 0 || slot == 1
                &&& meta_in(file, slot as int) == Some(meta)
                &&& meta_in(file, 1 - slot) matches Some(other) ==> other.txn_id <= meta.txn_id && (slot == 1
                    ==> other.txn_id < meta.txn_id)
            },
            None => meta_in(file, 0) is None && meta_in(file, 1) is None,
        },
{
}

/// A meta page is read exactly if the file has it, its checksum and body are in
/// order, and it is marked as one of this store.
pub proof fn a_meta_page_is_one_of_this_store(file: Seq<u8>, slot: int, meta: Meta)
    requires
        slot == 0 || slot == 1,
    ensures
        meta_in(file, slot) == Some(meta) <==> {
            let page = file.subrange(4096 * slot, 4096 * slot + 4096);
            let body = Meta::body(meta);
            &&& 4096 * slot + 4096 <= file.len()
            &&& meta.magic == 0xC1C5_7B0B
            &&& page.subrange(0, 4) == spec_u32_to_le_bytes(crc32(body))
            &&& page.subrange(4, 4 + body.len() as int) == body
        },
        (forall|page: Seq<u8>| meta_on(page) == Some(meta) ==> #[trigger] record_in::<Meta>(page) == Some(meta)),
{
    let page = file.subrange(4096 * slot, 4096 * slot + 4096);
    let body = Meta::body(meta);
    lemma_meta_fits(meta);
    if 4096 * slot + 4096 <= file.len() {
        assert(page =~= page_at(file, slot));
        if record_in::<Meta>(page) == Some(meta) {
            a_page_is_read_only_with_its_checksum::<Meta>(page, meta);
        }
        if page.subrange(0, 4) == spec_u32_to_le_bytes(crc32(body)) && page.subrange(4, 4 + body.len() as int) == body {
            a_page_with_its_checksum_is_read::<Meta>(page, meta);
        }
    }
}

/// A file whose latest record refers to nothing is that of an empty store, also
/// if it ends before its second meta page.
pub proof fn a_record_that_refers_to_nothing_makes_an_empty_store(file: Seq<u8>, slot: u64, meta: Meta)
    requires
        recovered(file) == Some((slot, meta)),
        meta.next_page >= 2,
        meta.root is None,
        meta.free_list_head is None,
    ensures
        is_store_file(file),
        stored(file) == Map::<Seq<u8>, Seq<u8>>::empty(),
{
    lemma_empty_chain::<FreeListPage>(file, 2, meta.next_page as int);
    assert(stored(file) =~= Map::<Seq<u8>, Seq<u8>>::empty());
}

/// A value that is chained over pages is what its first page has and then what
/// the rest of the chain has.
pub proof fn a_chained_value_is_its_pages_in_order(file: Seq<u8>, head: PageId) -> (page: OverflowView)
    requires
        is_chain::<OverflowPage>(file, Some(head), 0, file.len() as int / 4096),
    ensures
        4096 * head + 4096 <= file.len(),
        record_in::<OverflowPage>(file.subrange(4096 * head, 4096 * head + 4096)) == Some(page),
        is_chain::<OverflowPage>(file, page.next, 0, file.len() as int / 4096),
        chained::<OverflowPage>(file, Some(head)) == page.data + chained::<OverflowPage>(file, page.next),
        chained::<OverflowPage>(file, None) == Seq::<u8>::empty(),
{
    lemma_chain_shortened::<OverflowPage>(file, head, 0, file.len() as int / 4096);
    lemma_empty_chain::<OverflowPage>(file, 0, 0);
    assert(page_at(file, head as int) =~= file.subrange(4096 * head, 4096 * head + 4096));
    link_at::<OverflowPage>(file, head)->0
}

/// A free list is the entries of its first page and then those of the rest of the
/// chain.
pub proof fn a_free_list_is_its_pages_in_order(file: Seq<u8>, head: PageId, low: int, high: int) -> (page: FreeListView)
    requires
        is_chain::<FreeListPage>(file, Some(head), low, high),
    ensures
        low <= head < high,
        4096 * head + 4096 <= file.len(),
        record_in::<FreeListPage>(file.subrange(4096 * head, 4096 * head + 4096)) == Some(page),
        is_chain::<FreeListPage>(file, page.next, low, high),
        chained::<FreeListPage>(file, Some(head)) == page.entries + chained::<FreeListPage>(file, page.next),
        chained::<FreeListPage>(file, None) == Seq::<FreeEntry>::empty(),
{
    lemma_chain_shortened::<FreeListPage>(file, head, low, high);
    lemma_empty_chain::<FreeListPage>(file, 0, 0);
    assert(page_at(file, head as int) =~= file.subrange(4096 * head, 4096 * head + 4096));
    link_at::<FreeListPage>(file, head)->0
}

/// A page that leads to a chain makes a chain, if its number lies within the
/// limits.
pub proof fn a_page_in_front_of_a_chain_makes_a_chain(file: Seq<u8>, head: PageId, page: OverflowView, high: int)
    requires
        0 <= head < high,
        4096 * head + 4096 <= file.len(),
        record_in::<OverflowPage>(file.subrange(4096 * head, 4096 * head + 4096)) == Some(page),
        page.next is None || is_chain::<OverflowPage>(file, page.next, 0, high),
    ensures
        is_chain::<OverflowPage>(file, Some(head), 0, high),
{
    assert(page_at(file, head as int) =~= file.subrange(4096 * head, 4096 * head + 4096));
    if page.next is None {
        lemma_empty_chain::<OverflowPage>(file, 0, high);
    }
    lemma_chain_grown::<OverflowPage>(file, head, 0, high);
}

/// A stored free list is read back a page at a time, the page that was written
/// last first.
pub proof fn the_last_page_of_a_list_is_read_first(entries: Seq<FreeEntry>, more: Seq<FreeEntry>)
    requires
        entries.len() % 200 == 0,
        0 < more.len() <= 200,
    ensures
        last_chunk_first(entries + more) == more + last_chunk_first(entries),
        last_chunk_first(Seq::empty()) == Seq::<FreeEntry>::empty(),
{
    let all = entries + more;
    let start = (all.len() - 1) / 200 * 200;
    assert(start == entries.len());
    assert(all.skip(start) =~= more);
    assert(all.take(start) =~= entries);
}

/// Without a reader there is no limit to how far back pages are free, and the
/// snapshots of an environment are all that reading changes in it.
pub proof fn reading_changes_the_readers_alone(now: Environment, earlier: Environment)
    ensures
        watermark_of(Seq::empty()) == 0xffff_ffff_ffff_ffff,
        now.same_store(earlier) ==> now.pager() == earlier.pager() && now.meta() == earlier.meta() && now.writing()
            == earlier.writing() && now.file() == earlier.file() && now.contents() == earlier.contents(),
{
}

/// A change to the tree leaves a transaction's books.
pub proof fn a_change_leaves_the_books(now: WriteTxn, earlier: WriteTxn)
    requires
        now.same_books(earlier),
    ensures
        now.base() == earlier.base(),
        now.free_list() == earlier.free_list(),
        now.retired() == earlier.retired(),
        now.watermark() == earlier.watermark(),
{
}

// ---------------------------------------------------------------------------
// Crashes
// ---------------------------------------------------------------------------

/// A file with both meta pages is steady, and so is a shorter one whose record
/// stays the latest when zeros are added.
pub proof fn a_file_with_both_meta_pages_is_steady(file: Seq<u8>)
    ensures
        file.len() >= 8192 ==> is_steady(file),
        recovered(extended(file, 8192)) == recovered(file) ==> is_steady(file),
{
}

/// What a crash may leave: all changes up to a sync were carried out, the next
/// sync was not reached, pages that nothing in between writes are as they were or
/// filled up with zeros, a meta page in between is the old one, the new one or
/// unreadable, and any other page in between can hold anything.
pub proof fn a_crash_may_leave_anything_since_the_last_sync(
    file: Seq<u8>,
    changes: Seq<Change>,
    s: int,
    n: int,
    left: Seq<u8>,
)
    requires
        0 <= s <= n <= changes.len(),
        s == 0 || changes[s - 1] == Change::Sync,
        forall|i: int| s <= i < n ==> #[trigger] changes[i] != Change::Sync,
        replayed(file, changes.take(s)).len() <= left.len(),
        forall|j: int|
            #![trigger page_at(left, j)]
            has_page(left, j) && (forall|i: int|
                s <= i < n ==> (#[trigger] changes[i] matches Change::Write(id, page) && id != j)) ==> page_at(left, j)
                == page_at(extended(replayed(file, changes.take(s)), 4096 * j + 4096), j),
        forall|i: int|
            s <= i < n ==> (#[trigger] changes[i] matches Change::Write(id, page) ==> id < 2 ==> {
                ||| meta_in(left, id as int) == meta_in(replayed(file, changes.take(s)), id as int)
                ||| meta_in(left, id as int) == meta_on(page)
                ||| meta_in(left, id as int) is None
            }),
    ensures
        may_remain(file, changes, left),
{
    let synced = replayed(file, changes.take(s));
    let writes = changes.subrange(s, n);
    assert(crash_leaves(synced, writes, left)) by {
        assert forall|j: int|
            #![trigger page_at(left, j)]
            has_page(left, j) && !(exists|i: int| 0 <= i < writes.len() && touches(#[trigger] writes[i], j)) implies page_at(
            left,
            j,
        ) == page_at(extended(synced, (j + 1) * 4096), j) by {
            assert forall|i: int| s <= i < n implies (#[trigger] changes[i] matches Change::Write(id, page) && id != j) by {
                assert(writes[i - s] == changes[i]);
                assert(!touches(writes[i - s], j));
            }
            assert((j + 1) * 4096 == 4096 * j + 4096);
        }
        assert forall|i: int| 0 <= i < writes.len() implies (#[trigger] writes[i] matches Change::Write(id, page) ==> id < 2
            ==> {
            ||| meta_in(left, id as int) == meta_in(synced, id as int)
            ||| meta_in(left, id as int) == meta_in(extended(synced, (id + 1) * 4096), id as int)
            ||| meta_in(left, id as int) == meta_on(page)
            ||| meta_in(left, id as int) is None
        }) by {
            assert(writes[i] == changes[s + i]);
        }
    }
    assert(changes.subrange(s, n) == writes);
    assert forall|i: int| s <= i < n implies !(#[trigger] changes[i] is Sync) by {
        assert(changes[i] != Change::Sync);
    }
}

/// Adding zeros up to a length leaves what is there.
pub proof fn adding_zeros_leaves_the_file(file: Seq<u8>, len: int)
    ensures
        extended(file, len).len() == if file.len() < len {
            len
        } else {
            file.len() as int
        },
        forall|i: int| 0 <= i < file.len() ==> #[trigger] extended(file, len)[i] == file[i],
        forall|i: int| file.len() <= i < len ==> #[trigger] extended(file, len)[i] == 0,
{
}

} // verus!
