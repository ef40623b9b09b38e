//! What a tree of nodes is, and what it holds.
//!
//! The nodes are a map from page ids to values. That a tree comes to an end is
//! said by its depth; how its pages are numbered does not matter.

use vstd::prelude::*;

use super::btree::NodeView;
use super::keys::{ascending, key_le, key_lt, key_order_is_strict, key_order_is_transitive, nondescending};
use super::pager::PageId;

verus! {

/// A key and a value take this many bytes at most, so that the size of a node
/// can be counted. That is far more than a page can hold.
pub const MAX_ENTRY: usize = 0x40_0000;

/// A node has this many keys at most.
pub const MAX_KEYS: usize = 256;

/// The nodes that page ids stand for.
pub type Nodes = Map<PageId, NodeView>;

/// `key` is not before `lo`, and before `hi` where there is one.
pub open spec fn within(key: Seq<u8>, lo: Seq<u8>, hi: Option<Seq<u8>>) -> bool {
    &&& key_le(lo, key)
    &&& hi matches Some(h) ==> key_lt(key, h)
}

/// `key` can separate what lies between `lo` and `hi`.
pub open spec fn separates(key: Seq<u8>, lo: Seq<u8>, hi: Option<Seq<u8>>) -> bool {
    &&& key_le(lo, key)
    &&& hi matches Some(h) ==> key_le(key, h)
}

/// The lower bound of child `i`.
pub open spec fn fence_below(keys: Seq<Seq<u8>>, lo: Seq<u8>, i: int) -> Seq<u8> {
    if i == 0 {
        lo
    } else {
        keys[i - 1]
    }
}

/// The upper bound of child `i`.
pub open spec fn fence_above(keys: Seq<Seq<u8>>, hi: Option<Seq<u8>>, i: int) -> Option<Seq<u8>> {
    if i == keys.len() {
        hi
    } else {
        Some(keys[i])
    }
}

/// A key and its value are short enough to stand in a node.
pub open spec fn entry_fits(key: Seq<u8>, value: Seq<u8>) -> bool {
    key.len() + value.len() <= MAX_ENTRY
}

/// The node's keys are few enough, and each of them short enough.
pub open spec fn sized(node: NodeView) -> bool {
    match node {
        NodeView::Leaf { keys, values } => {
            &&& keys.len() == values.len() <= MAX_KEYS
            &&& forall|i: int| 0 <= i < keys.len() ==> entry_fits(#[trigger] keys[i], #[trigger] values[i])
        },
        NodeView::Internal { keys, children } => {
            &&& keys.len() + 1 == children.len()
            &&& keys.len() <= MAX_KEYS
            &&& forall|i: int| 0 <= i < keys.len() ==> (#[trigger] keys[i]).len() <= MAX_ENTRY
        },
    }
}

/// A leaf's keys are in order and between the bounds.
pub open spec fn leaf_in_order(keys: Seq<Seq<u8>>, lo: Seq<u8>, hi: Option<Seq<u8>>) -> bool {
    &&& ascending(keys)
    &&& forall|i: int| 0 <= i < keys.len() ==> within(#[trigger] keys[i], lo, hi)
}

/// An internal node's separators are in order and between the bounds.
pub open spec fn separators_in_order(keys: Seq<Seq<u8>>, lo: Seq<u8>, hi: Option<Seq<u8>>) -> bool {
    &&& nondescending(keys)
    &&& forall|i: int| 0 <= i < keys.len() ==> separates(#[trigger] keys[i], lo, hi)
}

/// `id` is the root of a search tree whose keys lie between `lo` and `hi`, on
/// pages before `limit`, with no leaf more than `depth` steps away.
pub open spec fn is_tree(nodes: Nodes, id: PageId, lo: Seq<u8>, hi: Option<Seq<u8>>, limit: int, depth: nat) -> bool
    decreases depth,
{
    &&& id < limit
    &&& nodes.contains_key(id)
    &&& sized(nodes[id])
    &&& match nodes[id] {
        NodeView::Leaf { keys, values } => leaf_in_order(keys, lo, hi),
        NodeView::Internal { keys, children } => {
            &&& depth > 0
            &&& separators_in_order(keys, lo, hi)
            &&& forall|i: int|
                #![trigger children[i]]
                0 <= i < children.len() ==> is_tree(
                    nodes,
                    children[i],
                    fence_below(keys, lo, i),
                    fence_above(keys, hi, i),
                    limit,
                    (depth - 1) as nat,
                )
        },
    }
}

/// A leaf no more than `depth` steps below `id` holds `value` under `key`.
pub open spec fn has_within(nodes: Nodes, id: PageId, key: Seq<u8>, value: Seq<u8>, depth: nat) -> bool
    decreases depth,
{
    match nodes[id] {
        NodeView::Leaf { keys, values } => leaf_has(keys, values, key, value),
        NodeView::Internal { keys, children } => depth > 0 && exists|i: int|
            0 <= i < children.len() && has_within(nodes, #[trigger] children[i], key, value, (depth - 1) as nat),
    }
}

/// The tree at `id` holds `value` under `key`.
pub open spec fn has(nodes: Nodes, id: PageId, key: Seq<u8>, value: Seq<u8>) -> bool {
    exists|depth: nat| has_within(nodes, id, key, value, depth)
}

/// `value` stands beside `key` in a leaf's lists.
pub open spec fn leaf_has(keys: Seq<Seq<u8>>, values: Seq<Seq<u8>>, key: Seq<u8>, value: Seq<u8>) -> bool {
    exists|i: int| 0 <= i < keys.len() && #[trigger] keys[i] == key && values[i] == value
}

/// One of the children holds `value` under `key`.
pub open spec fn family_has(nodes: Nodes, children: Seq<PageId>, key: Seq<u8>, value: Seq<u8>) -> bool {
    exists|i: int| 0 <= i < children.len() && has(nodes, #[trigger] children[i], key, value)
}

/// A leaf holds what stands in its lists.
pub proof fn a_leaf_holds_its_entries(nodes: Nodes, id: PageId)
    requires
        nodes[id] is Leaf,
    ensures
        forall|k: Seq<u8>, v: Seq<u8>| #[trigger]
            has(nodes, id, k, v) <==> leaf_has(nodes[id]->Leaf_keys, nodes[id]->values, k, v),
{
    assert forall|k: Seq<u8>, v: Seq<u8>| #[trigger] has(nodes, id, k, v) <==> leaf_has(
        nodes[id]->Leaf_keys,
        nodes[id]->values,
        k,
        v,
    ) by {
        if leaf_has(nodes[id]->Leaf_keys, nodes[id]->values, k, v) {
            assert(has_within(nodes, id, k, v, 0));
        }
    }
}

/// An internal node holds what its children hold.
pub proof fn an_internal_node_holds_what_its_children_hold(nodes: Nodes, id: PageId)
    requires
        nodes[id] is Internal,
    ensures
        forall|k: Seq<u8>, v: Seq<u8>| #[trigger]
            has(nodes, id, k, v) <==> family_has(nodes, nodes[id]->children, k, v),
{
    let children = nodes[id]->children;
    assert forall|k: Seq<u8>, v: Seq<u8>| #[trigger] has(nodes, id, k, v) <==> family_has(nodes, children, k, v) by {
        if has(nodes, id, k, v) {
            let depth = choose|depth: nat| has_within(nodes, id, k, v, depth);
            let less = (depth - 1) as nat;
            let i = choose|i: int|
                0 <= i < children.len() && has_within(nodes, #[trigger] children[i], k, v, less);
            assert(has(nodes, children[i], k, v));
        }
        if family_has(nodes, children, k, v) {
            let i = choose|i: int| 0 <= i < children.len() && has(nodes, #[trigger] children[i], k, v);
            let depth = choose|depth: nat| has_within(nodes, children[i], k, v, depth);
            assert(((depth + 1) - 1) as nat == depth);
            assert(has_within(nodes, id, k, v, depth + 1));
        }
    }
}

// ---------------------------------------------------------------------------
// Depth
// ---------------------------------------------------------------------------

/// Every leaf below `id` is `depth` steps away.
pub open spec fn is_level(nodes: Nodes, id: PageId, depth: nat) -> bool
    decreases depth,
{
    match nodes[id] {
        NodeView::Leaf { keys, values } => depth == 0,
        NodeView::Internal { keys, children } => {
            &&& depth > 0
            &&& forall|i: int|
                #![trigger children[i]]
                0 <= i < children.len() ==> is_level(nodes, children[i], (depth - 1) as nat)
        },
    }
}

/// No leaf below `id` is more than `depth` steps away.
pub open spec fn is_deep(nodes: Nodes, id: PageId, depth: nat) -> bool
    decreases depth,
{
    match nodes[id] {
        NodeView::Leaf { keys, values } => true,
        NodeView::Internal { keys, children } => {
            &&& depth > 0
            &&& forall|i: int|
                #![trigger children[i]]
                0 <= i < children.len() ==> is_deep(nodes, children[i], (depth - 1) as nat)
        },
    }
}

/// `depth` is how many steps away the last leaf below `id` is.
pub open spec fn is_depth(nodes: Nodes, id: PageId, depth: nat) -> bool {
    &&& is_deep(nodes, id, depth)
    &&& depth > 0 ==> !is_deep(nodes, id, (depth - 1) as nat)
}

/// How many steps away the last leaf below `id` is.
pub open spec fn depth_of(nodes: Nodes, id: PageId) -> nat {
    choose|depth: nat| is_depth(nodes, id, depth)
}

/// How many nodes stand above each other under `root` at most.
pub open spec fn height(nodes: Nodes, root: Option<PageId>) -> nat {
    match root {
        Some(id) => depth_of(nodes, id) + 1,
        None => 0,
    }
}

proof fn lemma_deeper(nodes: Nodes, id: PageId, a: nat, b: nat)
    requires
        is_deep(nodes, id, a),
        a <= b,
    ensures
        is_deep(nodes, id, b),
    decreases a,
{
    if let NodeView::Internal { keys, children } = nodes[id] {
        assert forall|i: int| #![trigger children[i]] 0 <= i < children.len() implies is_deep(
            nodes,
            children[i],
            (b - 1) as nat,
        ) by {
            lemma_deeper(nodes, children[i], (a - 1) as nat, (b - 1) as nat);
        }
    }
}

/// Where some depth is enough, there is a least one.
pub proof fn lemma_depth(nodes: Nodes, id: PageId, depth: nat)
    requires
        is_deep(nodes, id, depth),
    ensures
        is_depth(nodes, id, depth_of(nodes, id)),
        depth_of(nodes, id) <= depth,
    decreases depth,
{
    if depth > 0 && is_deep(nodes, id, (depth - 1) as nat) {
        lemma_depth(nodes, id, (depth - 1) as nat);
    } else {
        assert(is_depth(nodes, id, depth));
        let least = depth_of(nodes, id);
        if least > depth {
            lemma_deeper(nodes, id, depth, (least - 1) as nat);
        }
    }
}

/// A tree is as deep as the last of its leaves is far away.
pub proof fn lemma_depth_is(nodes: Nodes, id: PageId, depth: nat)
    requires
        is_depth(nodes, id, depth),
    ensures
        depth_of(nodes, id) == depth,
{
    lemma_depth(nodes, id, depth);
    let least = depth_of(nodes, id);
    if least < depth {
        lemma_deeper(nodes, id, least, (depth - 1) as nat);
    }
}

proof fn lemma_tree_is_deep(nodes: Nodes, id: PageId, lo: Seq<u8>, hi: Option<Seq<u8>>, limit: int, depth: nat)
    requires
        is_tree(nodes, id, lo, hi, limit, depth),
    ensures
        is_deep(nodes, id, depth),
    decreases depth,
{
    if let NodeView::Internal { keys, children } = nodes[id] {
        assert forall|i: int| #![trigger children[i]] 0 <= i < children.len() implies is_deep(
            nodes,
            children[i],
            (depth - 1) as nat,
        ) by {
            lemma_tree_is_deep(
                nodes,
                children[i],
                fence_below(keys, lo, i),
                fence_above(keys, hi, i),
                limit,
                (depth - 1) as nat,
            );
        }
    }
}

/// A tree is one at any depth that reaches its leaves, and before any later
/// page.
pub proof fn lemma_tree_at(
    nodes: Nodes,
    id: PageId,
    lo: Seq<u8>,
    hi: Option<Seq<u8>>,
    limit: int,
    depth: nat,
    limit2: int,
    depth2: nat,
)
    requires
        is_tree(nodes, id, lo, hi, limit, depth),
        limit <= limit2,
        depth <= depth2 || is_deep(nodes, id, depth2),
    ensures
        is_tree(nodes, id, lo, hi, limit2, depth2),
    decreases depth,
{
    if let NodeView::Internal { keys, children } = nodes[id] {
        assert forall|i: int| #![trigger children[i]] 0 <= i < children.len() implies is_tree(
            nodes,
            children[i],
            fence_below(keys, lo, i),
            fence_above(keys, hi, i),
            limit2,
            (depth2 - 1) as nat,
        ) by {
            lemma_tree_at(
                nodes,
                children[i],
                fence_below(keys, lo, i),
                fence_above(keys, hi, i),
                limit,
                (depth - 1) as nat,
                limit2,
                (depth2 - 1) as nat,
            );
        }
    }
}

/// A tree is one at its own depth.
pub proof fn lemma_tree_depth(nodes: Nodes, id: PageId, lo: Seq<u8>, hi: Option<Seq<u8>>, limit: int, depth: nat)
    requires
        is_tree(nodes, id, lo, hi, limit, depth),
    ensures
        is_tree(nodes, id, lo, hi, limit, depth_of(nodes, id)),
        is_depth(nodes, id, depth_of(nodes, id)),
        depth_of(nodes, id) <= depth,
{
    lemma_tree_is_deep(nodes, id, lo, hi, limit, depth);
    lemma_depth(nodes, id, depth);
    lemma_tree_at(nodes, id, lo, hi, limit, depth, limit, depth_of(nodes, id));
}

proof fn lemma_level_is_deep(
    nodes: Nodes,
    id: PageId,
    lo: Seq<u8>,
    hi: Option<Seq<u8>>,
    limit: int,
    depth: nat,
    level: nat,
    other: nat,
)
    requires
        is_tree(nodes, id, lo, hi, limit, depth),
        is_level(nodes, id, level),
    ensures
        is_deep(nodes, id, level),
        other < level ==> !is_deep(nodes, id, other),
    decreases depth,
{
    if let NodeView::Internal { keys, children } = nodes[id] {
        assert forall|i: int| #![trigger children[i]] 0 <= i < children.len() implies is_deep(
            nodes,
            children[i],
            (level - 1) as nat,
        ) by {
            lemma_level_is_deep(
                nodes,
                children[i],
                fence_below(keys, lo, i),
                fence_above(keys, hi, i),
                limit,
                (depth - 1) as nat,
                (level - 1) as nat,
                0,
            );
        }
        if 0 < other < level {
            let child = children[0];
            lemma_level_is_deep(
                nodes,
                child,
                fence_below(keys, lo, 0),
                fence_above(keys, hi, 0),
                limit,
                (depth - 1) as nat,
                (level - 1) as nat,
                (other - 1) as nat,
            );
        }
    }
}

/// A tree whose leaves are all equally far away is as deep as they are.
pub proof fn lemma_level_depth(
    nodes: Nodes,
    id: PageId,
    lo: Seq<u8>,
    hi: Option<Seq<u8>>,
    limit: int,
    depth: nat,
    level: nat,
)
    requires
        is_tree(nodes, id, lo, hi, limit, depth),
        is_level(nodes, id, level),
    ensures
        depth_of(nodes, id) == level,
{
    lemma_level_is_deep(nodes, id, lo, hi, limit, depth, level, 0);
    if level > 0 {
        lemma_level_is_deep(nodes, id, lo, hi, limit, depth, level, (level - 1) as nat);
    }
    lemma_depth_is(nodes, id, level);
}

/// A tree is on pages that there are nodes on.
pub proof fn lemma_tree_ids(
    nodes: Nodes,
    id: PageId,
    lo: Seq<u8>,
    hi: Option<Seq<u8>>,
    limit: int,
    depth: nat,
    end: int,
)
    requires
        is_tree(nodes, id, lo, hi, limit, depth),
        forall|other: PageId| #[trigger] nodes.contains_key(other) ==> other < end,
    ensures
        is_tree(nodes, id, lo, hi, end, depth),
    decreases depth,
{
    if let NodeView::Internal { keys, children } = nodes[id] {
        assert forall|i: int| #![trigger children[i]] 0 <= i < children.len() implies is_tree(
            nodes,
            children[i],
            fence_below(keys, lo, i),
            fence_above(keys, hi, i),
            end,
            (depth - 1) as nat,
        ) by {
            lemma_tree_ids(
                nodes,
                children[i],
                fence_below(keys, lo, i),
                fence_above(keys, hi, i),
                limit,
                (depth - 1) as nat,
                end,
            );
        }
    }
}

/// The ids of nodes of each depth from 0 to `depth`, one of each, in a tree that
/// is `depth` deep.
proof fn lemma_ids_of_all_depths(
    nodes: Nodes,
    id: PageId,
    lo: Seq<u8>,
    hi: Option<Seq<u8>>,
    limit: int,
    depth: nat,
) -> (ids: Seq<PageId>)
    requires
        is_tree(nodes, id, lo, hi, limit, depth),
        is_depth(nodes, id, depth),
    ensures
        ids.len() == depth + 1,
        forall|d: int| 0 <= d <= depth ==> (#[trigger] ids[d]) < limit && is_depth(nodes, ids[d], d as nat),
    decreases depth,
{
    if depth == 0 {
        seq![id]
    } else {
        let keys = nodes[id]->Internal_keys;
        let children = nodes[id]->children;
        let less = (depth - 1) as nat;
        lemma_tree_is_deep(nodes, id, lo, hi, limit, depth);
        assert(nodes[id] is Internal);
        let i = if less == 0 {
            0
        } else {
            choose|i: int|
                #![trigger children[i]]
                0 <= i < children.len() && !is_deep(nodes, children[i], (less - 1) as nat)
        };
        assert(0 <= i < children.len());
        assert(is_deep(nodes, children[i], less));
        assert(is_depth(nodes, children[i], less));
        let fewer = lemma_ids_of_all_depths(
            nodes,
            children[i],
            fence_below(keys, lo, i),
            fence_above(keys, hi, i),
            limit,
            less,
        );
        fewer.push(id)
    }
}

/// A tree is less deep than there are pages that its nodes can be on: on the way
/// down every node is less deep than the one before.
pub proof fn a_tree_is_less_deep_than_it_has_pages(
    nodes: Nodes,
    id: PageId,
    lo: Seq<u8>,
    hi: Option<Seq<u8>>,
    limit: int,
    depth: nat,
)
    requires
        is_tree(nodes, id, lo, hi, limit, depth),
        is_depth(nodes, id, depth),
    ensures
        depth < limit,
{
    let ids = lemma_ids_of_all_depths(nodes, id, lo, hi, limit, depth);
    let numbers = ids.map_values(|p: PageId| p as int);
    assert(numbers.no_duplicates()) by {
        assert forall|a: int, b: int| 0 <= a < numbers.len() && 0 <= b < numbers.len() && a != b implies numbers[a]
            != numbers[b] by {
            if ids[a] == ids[b] {
                lemma_depth_is(nodes, ids[a], a as nat);
                lemma_depth_is(nodes, ids[b], b as nat);
            }
        }
    }
    numbers.unique_seq_to_set();
    vstd::set_lib::lemma_int_range(0, limit);
    let all = vstd::set_lib::set_int_range(0, limit);
    assert(numbers.to_set().subset_of(all)) by {
        assert forall|x: int| numbers.to_set().contains(x) implies all.contains(x) by {
            let d = choose|d: int| 0 <= d < numbers.len() && numbers[d] == x;
            assert(ids[d] < limit);
        }
    }
    vstd::set_lib::lemma_len_subset(numbers.to_set(), all);
}

// ---------------------------------------------------------------------------
// Stores
// ---------------------------------------------------------------------------

/// How many page ids there are: each of them is smaller.
pub open spec fn page_ids() -> int {
    u64::MAX + 1
}

/// `root` stands for a tree on pages before `limit`, or for nothing.
pub open spec fn is_store(nodes: Nodes, root: Option<PageId>, limit: int) -> bool {
    root matches Some(id) ==> is_tree(nodes, id, Seq::empty(), None, limit, depth_of(nodes, id))
}

/// All leaves under `root` are equally far away.
pub open spec fn is_even(nodes: Nodes, root: Option<PageId>) -> bool {
    root matches Some(id) ==> is_level(nodes, id, depth_of(nodes, id))
}

/// What is stored under `root` holds `value` under `key`.
pub open spec fn holds_pair(nodes: Nodes, root: Option<PageId>, key: Seq<u8>, value: Seq<u8>) -> bool {
    root matches Some(id) && has(nodes, id, key, value)
}

/// What is stored under `root`, as a map from keys to values.
pub open spec fn contents(nodes: Nodes, root: Option<PageId>) -> Map<Seq<u8>, Seq<u8>> {
    Map::new(
        |key: Seq<u8>| exists|value: Seq<u8>| holds_pair(nodes, root, key, value),
        |key: Seq<u8>| choose|value: Seq<u8>| holds_pair(nodes, root, key, value),
    )
}

/// Every node of `a` before page `limit` is one of `b`.
pub open spec fn kept_before(a: Nodes, b: Nodes, limit: int) -> bool {
    forall|id: PageId| id < limit && #[trigger] a.contains_key(id) ==> b.contains_key(id) && b[id] == a[id]
}

/// A tree is not affected by other pages.
pub proof fn trees_are_kept(
    a: Nodes,
    b: Nodes,
    id: PageId,
    lo: Seq<u8>,
    hi: Option<Seq<u8>>,
    limit: int,
    depth: nat,
)
    requires
        is_tree(a, id, lo, hi, limit, depth),
        kept_before(a, b, limit),
    ensures
        is_tree(b, id, lo, hi, limit, depth),
        forall|key: Seq<u8>, value: Seq<u8>| #[trigger] has(b, id, key, value) == has(a, id, key, value),
        forall|d: nat| #[trigger] is_level(b, id, d) == is_level(a, id, d),
        forall|d: nat| #[trigger] is_deep(b, id, d) == is_deep(a, id, d),
    decreases depth,
{
    match a[id] {
        NodeView::Leaf { keys, values } => {
            a_leaf_holds_its_entries(a, id);
            a_leaf_holds_its_entries(b, id);
        },
        NodeView::Internal { keys, children } => {
            let less = (depth - 1) as nat;
            assert forall|i: int| #![trigger children[i]] 0 <= i < children.len() implies is_tree(
                b,
                children[i],
                fence_below(keys, lo, i),
                fence_above(keys, hi, i),
                limit,
                less,
            ) && (forall|key: Seq<u8>, value: Seq<u8>| #[trigger]
                has(b, children[i], key, value) == has(a, children[i], key, value)) && (forall|d: nat| #[trigger]
                is_level(b, children[i], d) == is_level(a, children[i], d)) && (forall|d: nat| #[trigger]
                is_deep(b, children[i], d) == is_deep(a, children[i], d)) by {
                trees_are_kept(a, b, children[i], fence_below(keys, lo, i), fence_above(keys, hi, i), limit, less);
            }
            an_internal_node_holds_what_its_children_hold(a, id);
            an_internal_node_holds_what_its_children_hold(b, id);
            assert forall|key: Seq<u8>, value: Seq<u8>| #[trigger] has(b, id, key, value) == has(a, id, key, value) by {
                if family_has(a, children, key, value) {
                    let i = choose|i: int| 0 <= i < children.len() && has(a, #[trigger] children[i], key, value);
                    assert(has(b, children[i], key, value));
                }
                if family_has(b, children, key, value) {
                    let i = choose|i: int| 0 <= i < children.len() && has(b, #[trigger] children[i], key, value);
                    assert(has(a, children[i], key, value));
                }
            }
            assert forall|d: nat| #[trigger] is_level(b, id, d) == is_level(a, id, d) by {
                if d > 0 {
                    let e = (d - 1) as nat;
                    assert forall|i: int| #![trigger children[i]] 0 <= i < children.len() implies is_level(
                        b,
                        children[i],
                        e,
                    ) == is_level(a, children[i], e) by {}
                }
            }
            assert forall|d: nat| #[trigger] is_deep(b, id, d) == is_deep(a, id, d) by {
                if d > 0 {
                    let e = (d - 1) as nat;
                    assert forall|i: int| #![trigger children[i]] 0 <= i < children.len() implies is_deep(
                        b,
                        children[i],
                        e,
                    ) == is_deep(a, children[i], e) by {}
                }
            }
        },
    }
}

/// Everything in a tree lies between its bounds.
pub proof fn keys_lie_between_bounds(
    nodes: Nodes,
    id: PageId,
    lo: Seq<u8>,
    hi: Option<Seq<u8>>,
    limit: int,
    depth: nat,
    key: Seq<u8>,
    value: Seq<u8>,
)
    requires
        is_tree(nodes, id, lo, hi, limit, depth),
        has(nodes, id, key, value),
    ensures
        within(key, lo, hi),
    decreases depth,
{
    match nodes[id] {
        NodeView::Leaf { keys, values } => {
            a_leaf_holds_its_entries(nodes, id);
        },
        NodeView::Internal { keys, children } => {
            an_internal_node_holds_what_its_children_hold(nodes, id);
            let i = choose|i: int| 0 <= i < children.len() && has(nodes, #[trigger] children[i], key, value);
            let below = fence_below(keys, lo, i);
            let above = fence_above(keys, hi, i);
            keys_lie_between_bounds(nodes, children[i], below, above, limit, (depth - 1) as nat, key, value);
            if i > 0 {
                assert(separates(keys[i - 1], lo, hi));
                key_order_is_transitive(lo, keys[i - 1], key);
            }
            if i < keys.len() {
                assert(separates(keys[i], lo, hi));
                if let Some(h) = hi {
                    key_order_is_transitive(key, keys[i], h);
                }
            }
        },
    }
}

/// The bounds of two children do not overlap.
proof fn lemma_fences_apart(keys: Seq<Seq<u8>>, lo: Seq<u8>, hi: Option<Seq<u8>>, i: int, j: int, key: Seq<u8>)
    requires
        separators_in_order(keys, lo, hi),
        0 <= i <= keys.len(),
        0 <= j <= keys.len(),
        within(key, fence_below(keys, lo, i), fence_above(keys, hi, i)),
        within(key, fence_below(keys, lo, j), fence_above(keys, hi, j)),
    ensures
        i == j,
{
    if i < j {
        lemma_fence_order(keys, i, j - 1);
        key_order_is_transitive(key, keys[i], keys[j - 1]);
        key_order_is_transitive(key, keys[j - 1], key);
        key_order_is_strict(key, key);
    } else if j < i {
        lemma_fence_order(keys, j, i - 1);
        key_order_is_transitive(key, keys[j], keys[i - 1]);
        key_order_is_transitive(key, keys[i - 1], key);
        key_order_is_strict(key, key);
    }
}

proof fn lemma_fence_order(keys: Seq<Seq<u8>>, i: int, j: int)
    requires
        nondescending(keys),
        0 <= i <= j < keys.len(),
    ensures
        key_le(keys[i], keys[j]),
{
    key_order_is_strict(keys[i], keys[i]);
}

/// A tree holds one value at most under a key.
pub proof fn a_key_has_one_value(
    nodes: Nodes,
    id: PageId,
    lo: Seq<u8>,
    hi: Option<Seq<u8>>,
    limit: int,
    depth: nat,
    key: Seq<u8>,
    v1: Seq<u8>,
    v2: Seq<u8>,
)
    requires
        is_tree(nodes, id, lo, hi, limit, depth),
        has(nodes, id, key, v1),
        has(nodes, id, key, v2),
    ensures
        v1 == v2,
    decreases depth,
{
    match nodes[id] {
        NodeView::Leaf { keys, values } => {
            a_leaf_holds_its_entries(nodes, id);
            let i = choose|i: int| 0 <= i < keys.len() && #[trigger] keys[i] == key && values[i] == v1;
            let j = choose|j: int| 0 <= j < keys.len() && #[trigger] keys[j] == key && values[j] == v2;
            key_order_is_strict(key, key);
        },
        NodeView::Internal { keys, children } => {
            an_internal_node_holds_what_its_children_hold(nodes, id);
            let less = (depth - 1) as nat;
            let i = choose|i: int| 0 <= i < children.len() && has(nodes, #[trigger] children[i], key, v1);
            let j = choose|j: int| 0 <= j < children.len() && has(nodes, #[trigger] children[j], key, v2);
            keys_lie_between_bounds(
                nodes,
                children[i],
                fence_below(keys, lo, i),
                fence_above(keys, hi, i),
                limit,
                less,
                key,
                v1,
            );
            keys_lie_between_bounds(
                nodes,
                children[j],
                fence_below(keys, lo, j),
                fence_above(keys, hi, j),
                limit,
                less,
                key,
                v2,
            );
            lemma_fences_apart(keys, lo, hi, i, j, key);
            a_key_has_one_value(
                nodes,
                children[i],
                fence_below(keys, lo, i),
                fence_above(keys, hi, i),
                limit,
                less,
                key,
                v1,
                v2,
            );
        },
    }
}

/// `contents` says exactly what the tree holds.
pub proof fn contents_are_the_pairs(nodes: Nodes, root: Option<PageId>, limit: int)
    requires
        is_store(nodes, root, limit),
    ensures
        forall|key: Seq<u8>, value: Seq<u8>| #[trigger]
            holds_pair(nodes, root, key, value) <==> contents(nodes, root).contains_key(key) && contents(
                nodes,
                root,
            )[key] == value,
{
    let m = contents(nodes, root);
    assert forall|key: Seq<u8>, value: Seq<u8>| #[trigger]
        holds_pair(nodes, root, key, value) <==> m.contains_key(key) && m[key] == value by {
        if m.contains_key(key) {
            let v = choose|v: Seq<u8>| holds_pair(nodes, root, key, v);
            assert(m[key] == v);
            if holds_pair(nodes, root, key, value) {
                let id = root->0;
                a_key_has_one_value(nodes, id, Seq::empty(), None, limit, depth_of(nodes, id), key, value, v);
            }
        }
    }
}

/// Two stores that hold the same pairs have the same contents.
pub proof fn lemma_same_pairs(nodes: Nodes, root: Option<PageId>, limit: int, m: Map<Seq<u8>, Seq<u8>>)
    requires
        is_store(nodes, root, limit),
        forall|key: Seq<u8>, value: Seq<u8>| #[trigger]
            holds_pair(nodes, root, key, value) <==> m.contains_key(key) && m[key] == value,
    ensures
        contents(nodes, root) == m,
{
    contents_are_the_pairs(nodes, root, limit);
    let c = contents(nodes, root);
    assert forall|key: Seq<u8>| c.contains_key(key) <==> m.contains_key(key) by {
        if c.contains_key(key) {
            assert(holds_pair(nodes, root, key, c[key]));
        }
        if m.contains_key(key) {
            assert(holds_pair(nodes, root, key, m[key]));
        }
    }
    assert forall|key: Seq<u8>| c.contains_key(key) implies c[key] == m[key] by {
        assert(holds_pair(nodes, root, key, c[key]));
    }
    assert(c =~= m);
}

/// What is stored under a root is not affected by other pages.
pub proof fn contents_are_kept(a: Nodes, b: Nodes, root: Option<PageId>, limit: int)
    requires
        is_store(a, root, limit),
        kept_before(a, b, limit),
    ensures
        is_store(b, root, limit),
        contents(b, root) == contents(a, root),
        height(b, root) == height(a, root),
        is_even(b, root) == is_even(a, root),
{
    if let Some(id) = root {
        let depth = depth_of(a, id);
        trees_are_kept(a, b, id, Seq::empty(), None, limit, depth);
        lemma_tree_depth(a, id, Seq::empty(), None, limit, depth);
        assert(is_depth(b, id, depth));
        lemma_depth_is(b, id, depth);
    }
    contents_are_the_pairs(a, root, limit);
    let m = contents(a, root);
    assert forall|key: Seq<u8>, value: Seq<u8>| #[trigger]
        holds_pair(b, root, key, value) <==> m.contains_key(key) && m[key] == value by {
        assert(holds_pair(a, root, key, value) == holds_pair(b, root, key, value));
    }
    lemma_same_pairs(b, root, limit, m);
}

/// A store on earlier pages is one on pages before any later one.
pub proof fn lemma_store_widened(nodes: Nodes, root: Option<PageId>, limit: int, limit2: int)
    requires
        is_store(nodes, root, limit),
        limit <= limit2,
    ensures
        is_store(nodes, root, limit2),
{
    if let Some(id) = root {
        let depth = depth_of(nodes, id);
        lemma_tree_at(nodes, id, Seq::empty(), None, limit, depth, limit2, depth);
    }
}

/// The child that `key` belongs to, and no other, can hold it.
pub proof fn lemma_descent(
    nodes: Nodes,
    id: PageId,
    lo: Seq<u8>,
    hi: Option<Seq<u8>>,
    limit: int,
    depth: nat,
    key: Seq<u8>,
    i: int,
)
    requires
        is_tree(nodes, id, lo, hi, limit, depth),
        within(key, lo, hi),
        nodes[id] matches NodeView::Internal { keys, children } && {
            &&& 0 <= i <= keys.len()
            &&& forall|j: int| 0 <= j < i ==> key_le(#[trigger] keys[j], key)
            &&& forall|j: int| i <= j < keys.len() ==> key_lt(key, #[trigger] keys[j])
        },
    ensures
        nodes[id] matches NodeView::Internal { keys, children } && {
            &&& depth > 0
            &&& within(key, fence_below(keys, lo, i), fence_above(keys, hi, i))
            &&& is_tree(
                nodes,
                children[i],
                fence_below(keys, lo, i),
                fence_above(keys, hi, i),
                limit,
                (depth - 1) as nat,
            )
            &&& forall|value: Seq<u8>| #[trigger]
                has(nodes, id, key, value) <==> has(nodes, children[i], key, value)
            &&& forall|j: int, value: Seq<u8>|
                0 <= j < children.len() && j != i ==> !#[trigger] has(nodes, children[j], key, value)
        },
{
    match nodes[id] {
        NodeView::Internal { keys, children } => {
            let child = children[i];
            an_internal_node_holds_what_its_children_hold(nodes, id);
            assert forall|j: int, value: Seq<u8>| 0 <= j < children.len() && j != i implies !#[trigger] has(
                nodes,
                children[j],
                key,
                value,
            ) by {
                if has(nodes, children[j], key, value) {
                    keys_lie_between_bounds(
                        nodes,
                        children[j],
                        fence_below(keys, lo, j),
                        fence_above(keys, hi, j),
                        limit,
                        (depth - 1) as nat,
                        key,
                        value,
                    );
                    lemma_fences_apart(keys, lo, hi, i, j, key);
                }
            }
            assert forall|value: Seq<u8>| #[trigger] has(nodes, id, key, value) <==> has(nodes, child, key, value) by {
                if has(nodes, id, key, value) {
                    let j = choose|j: int| 0 <= j < children.len() && has(nodes, #[trigger] children[j], key, value);
                    assert(j == i);
                }
                if has(nodes, child, key, value) {
                    assert(family_has(nodes, children, key, value));
                }
            }
        },
        _ => {},
    }
}

/// A key and its value.
pub type Row = (Seq<u8>, Seq<u8>);

/// `key` is not before `start` and before `end`, where they are given.
pub open spec fn in_bounds(key: Seq<u8>, start: Option<Seq<u8>>, end: Option<Seq<u8>>) -> bool {
    &&& start matches Some(s) ==> key_le(s, key)
    &&& end matches Some(e) ==> key_lt(key, e)
}

/// Rows in the order of their keys, no key twice.
pub open spec fn in_key_order(rows: Seq<Row>) -> bool {
    forall|i: int, j: int| 0 <= i < j < rows.len() ==> key_lt((#[trigger] rows[i]).0, (#[trigger] rows[j]).0)
}

/// `rows` lists, in key order, the entries of `m` whose keys lie in bounds: all
/// of them, and nothing else.
pub open spec fn lists(
    rows: Seq<Row>,
    m: Map<Seq<u8>, Seq<u8>>,
    start: Option<Seq<u8>>,
    end: Option<Seq<u8>>,
) -> bool {
    &&& in_key_order(rows)
    &&& forall|key: Seq<u8>, value: Seq<u8>| #[trigger]
        rows.contains((key, value)) <==> m.contains_key(key) && m[key] == value && in_bounds(key, start, end)
}

/// There is one list of what a map holds in bounds.
pub proof fn a_list_is_the_only_one(
    a: Seq<Row>,
    b: Seq<Row>,
    m: Map<Seq<u8>, Seq<u8>>,
    start: Option<Seq<u8>>,
    end: Option<Seq<u8>>,
)
    requires
        lists(a, m, start, end),
        lists(b, m, start, end),
    ensures
        a == b,
{
    let n = if a.len() < b.len() { a.len() as int } else { b.len() as int };
    lemma_lists_agree(a, b, m, start, end, n);
    if a.len() > n {
        let row = a[n];
        assert(a.contains((row.0, row.1)));
        assert(b.contains((row.0, row.1)));
        let j = choose|j: int| 0 <= j < b.len() && b[j] == row;
        assert(a[j] == b[j]);
        key_order_is_strict(row.0, row.0);
    }
    if b.len() > n {
        let row = b[n];
        assert(b.contains((row.0, row.1)));
        assert(a.contains((row.0, row.1)));
        let j = choose|j: int| 0 <= j < a.len() && a[j] == row;
        assert(a[j] == b[j]);
        key_order_is_strict(row.0, row.0);
    }
    assert(a =~= b);
}

proof fn lemma_lists_agree(
    a: Seq<Row>,
    b: Seq<Row>,
    m: Map<Seq<u8>, Seq<u8>>,
    start: Option<Seq<u8>>,
    end: Option<Seq<u8>>,
    n: int,
)
    requires
        lists(a, m, start, end),
        lists(b, m, start, end),
        0 <= n <= a.len(),
        n <= b.len(),
    ensures
        forall|i: int| 0 <= i < n ==> #[trigger] a[i] == b[i],
    decreases n,
{
    if n > 0 {
        lemma_lists_agree(a, b, m, start, end, n - 1);
        let x = a[n - 1];
        let y = b[n - 1];
        assert(a.contains((x.0, x.1)) && b.contains((y.0, y.1)));
        assert(b.contains((x.0, x.1)) && a.contains((y.0, y.1)));
        let j = choose|j: int| 0 <= j < b.len() && b[j] == x;
        let i = choose|i: int| 0 <= i < a.len() && a[i] == y;
        key_order_is_strict(x.0, x.0);
        key_order_is_strict(y.0, y.0);
        key_order_is_strict(x.0, y.0);
        if j < n - 1 {
            assert(a[j] == b[j]);
        }
        if i < n - 1 {
            assert(a[i] == b[i]);
        }
    }
}

/// `rows` lists what the tree at `id` holds in bounds.
pub open spec fn lists_tree(
    rows: Seq<Row>,
    nodes: Nodes,
    id: PageId,
    start: Option<Seq<u8>>,
    end: Option<Seq<u8>>,
) -> bool {
    &&& in_key_order(rows)
    &&& forall|key: Seq<u8>, value: Seq<u8>| #[trigger]
        rows.contains((key, value)) <==> has(nodes, id, key, value) && in_bounds(key, start, end)
}

/// `rows` lists what the children before child `n` hold in bounds.
pub open spec fn lists_children(
    rows: Seq<Row>,
    nodes: Nodes,
    children: Seq<PageId>,
    n: int,
    start: Option<Seq<u8>>,
    end: Option<Seq<u8>>,
) -> bool {
    &&& in_key_order(rows)
    &&& forall|key: Seq<u8>, value: Seq<u8>| #[trigger]
        rows.contains((key, value)) <==> (exists|i: int|
            0 <= i < n && has(nodes, #[trigger] children[i], key, value)) && in_bounds(key, start, end)
}

proof fn lemma_concat_contains(a: Seq<Row>, b: Seq<Row>, row: Row)
    ensures
        (a + b).contains(row) <==> a.contains(row) || b.contains(row),
{
    if a.contains(row) {
        let i = choose|i: int| 0 <= i < a.len() && a[i] == row;
        assert((a + b)[i] == row);
    }
    if b.contains(row) {
        let i = choose|i: int| 0 <= i < b.len() && b[i] == row;
        assert((a + b)[a.len() + i] == row);
    }
    if (a + b).contains(row) {
        let i = choose|i: int| 0 <= i < (a + b).len() && (a + b)[i] == row;
        if i < a.len() {
            assert(a[i] == row);
        } else {
            assert(b[i - a.len()] == row);
        }
    }
}

/// The rows of one more child follow those of the children before it.
pub proof fn lemma_next_child_follows(
    nodes: Nodes,
    id: PageId,
    lo: Seq<u8>,
    hi: Option<Seq<u8>>,
    limit: int,
    depth: nat,
    n: int,
    before: Seq<Row>,
    rows: Seq<Row>,
    start: Option<Seq<u8>>,
    end: Option<Seq<u8>>,
)
    requires
        is_tree(nodes, id, lo, hi, limit, depth),
        nodes[id] matches NodeView::Internal { keys, children } && {
            &&& 0 <= n < children.len()
            &&& lists_children(before, nodes, children, n, start, end)
            &&& lists_tree(rows, nodes, children[n], start, end)
        },
    ensures
        lists_children(before + rows, nodes, nodes[id]->children, n + 1, start, end),
{
    let keys = nodes[id]->Internal_keys;
    let children = nodes[id]->children;
    let all = before + rows;
    assert forall|i: int, j: int| 0 <= i < j < all.len() implies key_lt((#[trigger] all[i]).0, (#[trigger] all[j]).0) by {
        if j < before.len() {
            assert(all[i] == before[i] && all[j] == before[j]);
        } else if i >= before.len() {
            assert(all[i] == rows[i - before.len()] && all[j] == rows[j - before.len()]);
        } else {
            let a = before[i];
            let b = rows[j - before.len()];
            assert(before.contains((a.0, a.1)));
            assert(rows.contains((b.0, b.1)));
            let c = choose|c: int| 0 <= c < n && has(nodes, #[trigger] children[c], a.0, a.1);
            keys_lie_between_bounds(
                nodes,
                children[c],
                fence_below(keys, lo, c),
                fence_above(keys, hi, c),
                limit,
                (depth - 1) as nat,
                a.0,
                a.1,
            );
            keys_lie_between_bounds(
                nodes,
                children[n],
                fence_below(keys, lo, n),
                fence_above(keys, hi, n),
                limit,
                (depth - 1) as nat,
                b.0,
                b.1,
            );
            lemma_fence_order(keys, c, n - 1);
            key_order_is_transitive(a.0, keys[c], keys[n - 1]);
            key_order_is_transitive(a.0, keys[n - 1], b.0);
        }
    }
    assert forall|key: Seq<u8>, value: Seq<u8>| #[trigger] all.contains((key, value)) <==> (exists|i: int|
        0 <= i < n + 1 && has(nodes, #[trigger] children[i], key, value)) && in_bounds(key, start, end) by {
        lemma_concat_contains(before, rows, (key, value));
        assert(before.contains((key, value)) <==> (exists|i: int|
            0 <= i < n && has(nodes, #[trigger] children[i], key, value)) && in_bounds(key, start, end));
        assert(rows.contains((key, value)) <==> has(nodes, children[n], key, value) && in_bounds(key, start, end));
    }
}

// ---------------------------------------------------------------------------
// Leaves and families of subtrees, the parts that nodes are rebuilt from
// ---------------------------------------------------------------------------

/// The separators and children of an internal node between `lo` and `hi`, all
/// of them trees on pages before `limit`, no more than `depth` deep.
pub open spec fn is_family(
    nodes: Nodes,
    keys: Seq<Seq<u8>>,
    children: Seq<PageId>,
    lo: Seq<u8>,
    hi: Option<Seq<u8>>,
    limit: int,
    depth: nat,
) -> bool {
    &&& children.len() == keys.len() + 1
    &&& separators_in_order(keys, lo, hi)
    &&& forall|i: int| 0 <= i < keys.len() ==> (#[trigger] keys[i]).len() <= MAX_ENTRY
    &&& forall|i: int|
        #![trigger children[i]]
        0 <= i < children.len() ==> is_tree(
            nodes,
            children[i],
            fence_below(keys, lo, i),
            fence_above(keys, hi, i),
            limit,
            depth,
        )
}

/// What a tree holds after `value` was stored under `key`.
pub open spec fn after_put(
    nodes: Nodes,
    id: PageId,
    key: Seq<u8>,
    value: Seq<u8>,
    k: Seq<u8>,
    v: Seq<u8>,
) -> bool {
    if k == key {
        v == value
    } else {
        has(nodes, id, k, v)
    }
}

/// What a tree holds after what was stored under `key` was removed.
pub open spec fn after_delete(nodes: Nodes, id: PageId, key: Seq<u8>, k: Seq<u8>, v: Seq<u8>) -> bool {
    k != key && has(nodes, id, k, v)
}

/// An internal node is a family.
pub proof fn lemma_internal_is_family(
    nodes: Nodes,
    id: PageId,
    lo: Seq<u8>,
    hi: Option<Seq<u8>>,
    limit: int,
    depth: nat,
)
    requires
        is_tree(nodes, id, lo, hi, limit, depth),
        nodes[id] is Internal,
    ensures
        depth > 0,
        is_family(nodes, nodes[id]->Internal_keys, nodes[id]->children, lo, hi, limit, (depth - 1) as nat),
        forall|k: Seq<u8>, v: Seq<u8>| #[trigger]
            has(nodes, id, k, v) <==> family_has(nodes, nodes[id]->children, k, v),
{
    an_internal_node_holds_what_its_children_hold(nodes, id);
}

/// A node that holds a family is a tree.
pub proof fn lemma_family_makes_tree(
    nodes: Nodes,
    id: PageId,
    keys: Seq<Seq<u8>>,
    children: Seq<PageId>,
    lo: Seq<u8>,
    hi: Option<Seq<u8>>,
    limit: int,
    depth: nat,
)
    requires
        id < limit,
        nodes.contains_key(id),
        nodes[id] == (NodeView::Internal { keys, children }),
        keys.len() <= MAX_KEYS,
        is_family(nodes, keys, children, lo, hi, limit, depth),
    ensures
        is_tree(nodes, id, lo, hi, limit, depth + 1),
        forall|k: Seq<u8>, v: Seq<u8>| #[trigger] has(nodes, id, k, v) <==> family_has(nodes, children, k, v),
{
    assert(((depth + 1) - 1) as nat == depth);
    an_internal_node_holds_what_its_children_hold(nodes, id);
}

/// A family on earlier pages is one on pages before any later one.
pub proof fn lemma_family_widened(
    nodes: Nodes,
    keys: Seq<Seq<u8>>,
    children: Seq<PageId>,
    lo: Seq<u8>,
    hi: Option<Seq<u8>>,
    limit: int,
    limit2: int,
    depth: nat,
)
    requires
        is_family(nodes, keys, children, lo, hi, limit, depth),
        limit <= limit2,
    ensures
        is_family(nodes, keys, children, lo, hi, limit2, depth),
{
    assert forall|i: int| #![trigger children[i]] 0 <= i < children.len() implies is_tree(
        nodes,
        children[i],
        fence_below(keys, lo, i),
        fence_above(keys, hi, i),
        limit2,
        depth,
    ) by {
        lemma_tree_at(
            nodes,
            children[i],
            fence_below(keys, lo, i),
            fence_above(keys, hi, i),
            limit,
            depth,
            limit2,
            depth,
        );
    }
}

/// A family is not affected by new pages.
pub proof fn lemma_family_kept(
    a: Nodes,
    b: Nodes,
    keys: Seq<Seq<u8>>,
    children: Seq<PageId>,
    lo: Seq<u8>,
    hi: Option<Seq<u8>>,
    limit: int,
    depth: nat,
)
    requires
        is_family(a, keys, children, lo, hi, limit, depth),
        kept_before(a, b, limit),
    ensures
        is_family(b, keys, children, lo, hi, limit, depth),
        forall|k: Seq<u8>, v: Seq<u8>| #[trigger] family_has(b, children, k, v) <==> family_has(a, children, k, v),
        forall|i: int, k: Seq<u8>, v: Seq<u8>|
            0 <= i < children.len() ==> (#[trigger] has(b, children[i], k, v) <==> has(a, children[i], k, v)),
{
    assert forall|i: int| #![trigger children[i]] 0 <= i < children.len() implies is_tree(
        b,
        children[i],
        fence_below(keys, lo, i),
        fence_above(keys, hi, i),
        limit,
        depth,
    ) by {
        trees_are_kept(a, b, children[i], fence_below(keys, lo, i), fence_above(keys, hi, i), limit, depth);
    }
    assert forall|i: int, k: Seq<u8>, v: Seq<u8>| 0 <= i < children.len() implies (#[trigger] has(
        b,
        children[i],
        k,
        v,
    ) <==> has(a, children[i], k, v)) by {
        trees_are_kept(a, b, children[i], fence_below(keys, lo, i), fence_above(keys, hi, i), limit, depth);
    }
    assert forall|k: Seq<u8>, v: Seq<u8>| #[trigger] family_has(b, children, k, v) <==> family_has(
        a,
        children,
        k,
        v,
    ) by {
        if family_has(a, children, k, v) {
            let i = choose|i: int| 0 <= i < children.len() && has(a, #[trigger] children[i], k, v);
            assert(has(b, children[i], k, v));
        }
        if family_has(b, children, k, v) {
            let i = choose|i: int| 0 <= i < children.len() && has(b, #[trigger] children[i], k, v);
            assert(has(a, children[i], k, v));
        }
    }
}

/// One child of a family is replaced.
pub proof fn lemma_family_replaced(
    nodes: Nodes,
    keys: Seq<Seq<u8>>,
    children: Seq<PageId>,
    lo: Seq<u8>,
    hi: Option<Seq<u8>>,
    limit: int,
    depth: nat,
    i: int,
    child: PageId,
)
    requires
        is_family(nodes, keys, children, lo, hi, limit, depth),
        0 <= i < children.len(),
        is_tree(nodes, child, fence_below(keys, lo, i), fence_above(keys, hi, i), limit, depth),
    ensures
        is_family(nodes, keys, children.update(i, child), lo, hi, limit, depth),
        forall|k: Seq<u8>, v: Seq<u8>| #[trigger]
            family_has(nodes, children.update(i, child), k, v) <==> has(nodes, child, k, v) || (exists|j: int|
                0 <= j < children.len() && j != i && has(nodes, #[trigger] children[j], k, v)),
{
    let after = children.update(i, child);
    assert forall|k: Seq<u8>, v: Seq<u8>| #[trigger] family_has(nodes, after, k, v) <==> has(nodes, child, k, v) || (
    exists|j: int| 0 <= j < children.len() && j != i && has(nodes, #[trigger] children[j], k, v)) by {
        if family_has(nodes, after, k, v) {
            let j = choose|j: int| 0 <= j < after.len() && has(nodes, #[trigger] after[j], k, v);
            if j != i {
                assert(has(nodes, children[j], k, v));
            }
        }
        if has(nodes, child, k, v) {
            assert(has(nodes, after[i], k, v));
        }
        if exists|j: int| 0 <= j < children.len() && j != i && has(nodes, #[trigger] children[j], k, v) {
            let j = choose|j: int| 0 <= j < children.len() && j != i && has(nodes, #[trigger] children[j], k, v);
            assert(has(nodes, after[j], k, v));
        }
    }
}

/// The separators of a family in which another one, `seps`, takes the place of
/// child `i`.
pub open spec fn spliced_keys(keys: Seq<Seq<u8>>, i: int, seps: Seq<Seq<u8>>) -> Seq<Seq<u8>> {
    keys.subrange(0, i) + seps + keys.subrange(i, keys.len() as int)
}

/// The children of a family in which another one, `kids`, takes the place of
/// child `i`.
pub open spec fn spliced_children(children: Seq<PageId>, i: int, kids: Seq<PageId>) -> Seq<PageId> {
    children.subrange(0, i) + kids + children.subrange(i + 1, children.len() as int)
}

/// One child of a family is replaced by a family.
pub proof fn lemma_family_spliced(
    nodes: Nodes,
    keys: Seq<Seq<u8>>,
    children: Seq<PageId>,
    lo: Seq<u8>,
    hi: Option<Seq<u8>>,
    limit: int,
    depth: nat,
    i: int,
    seps: Seq<Seq<u8>>,
    kids: Seq<PageId>,
)
    requires
        is_family(nodes, keys, children, lo, hi, limit, depth),
        0 <= i < children.len(),
        is_family(nodes, seps, kids, fence_below(keys, lo, i), fence_above(keys, hi, i), limit, depth),
    ensures
        is_family(nodes, spliced_keys(keys, i, seps), spliced_children(children, i, kids), lo, hi, limit, depth),
        forall|k: Seq<u8>, v: Seq<u8>| #[trigger]
            family_has(nodes, spliced_children(children, i, kids), k, v) <==> family_has(nodes, kids, k, v) || (
            exists|j: int| 0 <= j < children.len() && j != i && has(nodes, #[trigger] children[j], k, v)),
{
    let keys2 = spliced_keys(keys, i, seps);
    let after = spliced_children(children, i, kids);
    let m = seps.len() as int;
    let below = fence_below(keys, lo, i);
    let above = fence_above(keys, hi, i);
    assert forall|b: int| 0 <= b < m implies separates(#[trigger] seps[b], lo, hi) by {
        assert(separates(seps[b], below, above));
        if i > 0 {
            assert(separates(keys[i - 1], lo, hi));
            key_order_is_transitive(lo, keys[i - 1], seps[b]);
        }
        if i < keys.len() {
            assert(separates(keys[i], lo, hi));
            if let Some(h) = hi {
                key_order_is_transitive(seps[b], keys[i], h);
            }
        }
    }
    assert forall|a: int| 0 <= a < keys2.len() implies separates(#[trigger] keys2[a], lo, hi) && keys2[a].len()
        <= MAX_ENTRY by {
        if a < i {
            assert(keys2[a] == keys[a]);
        } else if a < i + m {
            assert(keys2[a] == seps[a - i]);
        } else {
            assert(keys2[a] == keys[a - m]);
        }
    }
    assert forall|a: int, b: int| 0 <= a < b < keys2.len() implies key_le(#[trigger] keys2[a], #[trigger] keys2[b]) by {
        if a < i {
            assert(keys2[a] == keys[a]);
            if b < i {
                assert(keys2[b] == keys[b]);
            } else if b < i + m {
                assert(keys2[b] == seps[b - i]);
                assert(separates(seps[b - i], below, above));
                lemma_fence_order(keys, a, i - 1);
                key_order_is_transitive(keys[a], keys[i - 1], seps[b - i]);
            } else {
                assert(keys2[b] == keys[b - m]);
            }
        } else if a < i + m {
            assert(keys2[a] == seps[a - i]);
            if b < i + m {
                assert(keys2[b] == seps[b - i]);
            } else {
                assert(keys2[b] == keys[b - m]);
                assert(separates(seps[a - i], below, above));
                lemma_fence_order(keys, i, b - m);
                key_order_is_transitive(seps[a - i], keys[i], keys[b - m]);
            }
        } else {
            assert(keys2[a] == keys[a - m] && keys2[b] == keys[b - m]);
        }
    }
    assert forall|a: int| #![trigger after[a]] 0 <= a < after.len() implies is_tree(
        nodes,
        after[a],
        fence_below(keys2, lo, a),
        fence_above(keys2, hi, a),
        limit,
        depth,
    ) by {
        if a < i {
            assert(after[a] == children[a]);
            assert(fence_below(keys2, lo, a) == fence_below(keys, lo, a));
            assert(fence_above(keys2, hi, a) == fence_above(keys, hi, a));
        } else if a <= i + m {
            assert(after[a] == kids[a - i]);
            assert(fence_below(keys2, lo, a) == fence_below(seps, below, a - i));
            assert(fence_above(keys2, hi, a) == fence_above(seps, above, a - i));
        } else {
            assert(after[a] == children[a - m]);
            assert(fence_below(keys2, lo, a) == fence_below(keys, lo, a - m));
            assert(fence_above(keys2, hi, a) == fence_above(keys, hi, a - m));
        }
    }
    assert forall|k: Seq<u8>, v: Seq<u8>| #[trigger] family_has(nodes, after, k, v) <==> family_has(nodes, kids, k, v)
        || (exists|j: int| 0 <= j < children.len() && j != i && has(nodes, #[trigger] children[j], k, v)) by {
        if family_has(nodes, after, k, v) {
            let a = choose|a: int| 0 <= a < after.len() && has(nodes, #[trigger] after[a], k, v);
            if a < i {
                assert(has(nodes, children[a], k, v));
            } else if a <= i + m {
                assert(has(nodes, kids[a - i], k, v));
            } else {
                assert(has(nodes, children[a - m], k, v));
            }
        }
        if family_has(nodes, kids, k, v) {
            let a = choose|a: int| 0 <= a < kids.len() && has(nodes, #[trigger] kids[a], k, v);
            assert(has(nodes, after[i + a], k, v));
        }
        if exists|j: int| 0 <= j < children.len() && j != i && has(nodes, #[trigger] children[j], k, v) {
            let j = choose|j: int| 0 <= j < children.len() && j != i && has(nodes, #[trigger] children[j], k, v);
            if j < i {
                assert(has(nodes, after[j], k, v));
            } else {
                assert(has(nodes, after[j + m], k, v));
            }
        }
    }
}

/// A family is cut in two at separator `mid`, which neither part keeps.
pub proof fn lemma_family_cut(
    nodes: Nodes,
    keys: Seq<Seq<u8>>,
    children: Seq<PageId>,
    lo: Seq<u8>,
    hi: Option<Seq<u8>>,
    limit: int,
    depth: nat,
    mid: int,
)
    requires
        is_family(nodes, keys, children, lo, hi, limit, depth),
        0 <= mid < keys.len(),
    ensures
        is_family(nodes, keys.subrange(0, mid), children.subrange(0, mid + 1), lo, Some(keys[mid]), limit, depth),
        is_family(
            nodes,
            keys.subrange(mid + 1, keys.len() as int),
            children.subrange(mid + 1, children.len() as int),
            keys[mid],
            hi,
            limit,
            depth,
        ),
        forall|k: Seq<u8>, v: Seq<u8>| #[trigger]
            family_has(nodes, children, k, v) <==> family_has(nodes, children.subrange(0, mid + 1), k, v)
                || family_has(nodes, children.subrange(mid + 1, children.len() as int), k, v),
{
    let lk = keys.subrange(0, mid);
    let rk = keys.subrange(mid + 1, keys.len() as int);
    let lc = children.subrange(0, mid + 1);
    let rc = children.subrange(mid + 1, children.len() as int);
    let sep = keys[mid];
    assert forall|a: int| 0 <= a < lk.len() implies separates(#[trigger] lk[a], lo, Some(sep)) && lk[a].len()
        <= MAX_ENTRY by {
        assert(lk[a] == keys[a]);
        assert(separates(keys[a], lo, hi));
    }
    assert forall|a: int| 0 <= a < rk.len() implies separates(#[trigger] rk[a], sep, hi) && rk[a].len() <= MAX_ENTRY by {
        assert(rk[a] == keys[mid + 1 + a]);
        assert(separates(keys[mid + 1 + a], lo, hi));
    }
    assert forall|a: int| #![trigger lc[a]] 0 <= a < lc.len() implies is_tree(
        nodes,
        lc[a],
        fence_below(lk, lo, a),
        fence_above(lk, Some(sep), a),
        limit,
        depth,
    ) by {
        assert(lc[a] == children[a]);
        assert(fence_below(lk, lo, a) == fence_below(keys, lo, a));
        assert(fence_above(lk, Some(sep), a) == fence_above(keys, hi, a));
    }
    assert forall|a: int| #![trigger rc[a]] 0 <= a < rc.len() implies is_tree(
        nodes,
        rc[a],
        fence_below(rk, sep, a),
        fence_above(rk, hi, a),
        limit,
        depth,
    ) by {
        assert(rc[a] == children[mid + 1 + a]);
        assert(fence_below(rk, sep, a) == fence_below(keys, lo, mid + 1 + a));
        assert(fence_above(rk, hi, a) == fence_above(keys, hi, mid + 1 + a));
    }
    assert forall|k: Seq<u8>, v: Seq<u8>| #[trigger] family_has(nodes, children, k, v) <==> family_has(nodes, lc, k, v)
        || family_has(nodes, rc, k, v) by {
        if family_has(nodes, children, k, v) {
            let i = choose|i: int| 0 <= i < children.len() && has(nodes, #[trigger] children[i], k, v);
            if i <= mid {
                assert(has(nodes, lc[i], k, v));
            } else {
                assert(has(nodes, rc[i - mid - 1], k, v));
            }
        }
        if family_has(nodes, lc, k, v) {
            let i = choose|i: int| 0 <= i < lc.len() && has(nodes, #[trigger] lc[i], k, v);
            assert(has(nodes, children[i], k, v));
        }
        if family_has(nodes, rc, k, v) {
            let i = choose|i: int| 0 <= i < rc.len() && has(nodes, #[trigger] rc[i], k, v);
            assert(has(nodes, children[mid + 1 + i], k, v));
        }
    }
}

/// A leaf is cut in two at key `mid`, which begins the second part.
pub proof fn lemma_leaf_cut(keys: Seq<Seq<u8>>, values: Seq<Seq<u8>>, lo: Seq<u8>, hi: Option<Seq<u8>>, mid: int)
    requires
        keys.len() == values.len(),
        leaf_in_order(keys, lo, hi),
        0 <= mid < keys.len(),
    ensures
        leaf_in_order(keys.subrange(0, mid), lo, Some(keys[mid])),
        leaf_in_order(keys.subrange(mid, keys.len() as int), keys[mid], hi),
        separates(keys[mid], lo, hi),
        forall|k: Seq<u8>, v: Seq<u8>| #[trigger]
            leaf_has(keys, values, k, v) <==> leaf_has(keys.subrange(0, mid), values.subrange(0, mid), k, v)
                || leaf_has(
                keys.subrange(mid, keys.len() as int),
                values.subrange(mid, values.len() as int),
                k,
                v,
            ),
{
    let lk = keys.subrange(0, mid);
    let rk = keys.subrange(mid, keys.len() as int);
    let lv = values.subrange(0, mid);
    let rv = values.subrange(mid, values.len() as int);
    let sep = keys[mid];
    assert(within(sep, lo, hi));
    if let Some(h) = hi {
        key_order_is_strict(sep, h);
    }
    assert forall|a: int| 0 <= a < lk.len() implies within(#[trigger] lk[a], lo, Some(sep)) by {
        assert(lk[a] == keys[a]);
        assert(within(keys[a], lo, hi));
    }
    assert forall|a: int| 0 <= a < rk.len() implies within(#[trigger] rk[a], sep, hi) by {
        assert(rk[a] == keys[mid + a]);
        assert(within(keys[mid + a], lo, hi));
        key_order_is_strict(sep, rk[a]);
    }
    assert forall|k: Seq<u8>, v: Seq<u8>| #[trigger] leaf_has(keys, values, k, v) <==> leaf_has(lk, lv, k, v)
        || leaf_has(rk, rv, k, v) by {
        if leaf_has(keys, values, k, v) {
            let i = choose|i: int| 0 <= i < keys.len() && #[trigger] keys[i] == k && values[i] == v;
            if i < mid {
                assert(lk[i] == k && lv[i] == v);
            } else {
                assert(rk[i - mid] == k && rv[i - mid] == v);
            }
        }
        if leaf_has(lk, lv, k, v) {
            let i = choose|i: int| 0 <= i < lk.len() && #[trigger] lk[i] == k && lv[i] == v;
            assert(keys[i] == k && values[i] == v);
        }
        if leaf_has(rk, rv, k, v) {
            let i = choose|i: int| 0 <= i < rk.len() && #[trigger] rk[i] == k && rv[i] == v;
            assert(keys[mid + i] == k && values[mid + i] == v);
        }
    }
}

/// A value is stored in a leaf: over the one that its key has, or where the key
/// belongs.
pub proof fn lemma_leaf_put(
    keys: Seq<Seq<u8>>,
    values: Seq<Seq<u8>>,
    lo: Seq<u8>,
    hi: Option<Seq<u8>>,
    key: Seq<u8>,
    value: Seq<u8>,
    i: int,
    found: bool,
)
    requires
        keys.len() == values.len(),
        leaf_in_order(keys, lo, hi),
        within(key, lo, hi),
        found ==> 0 <= i < keys.len() && keys[i] == key,
        !found ==> {
            &&& 0 <= i <= keys.len()
            &&& forall|j: int| 0 <= j < i ==> key_lt(#[trigger] keys[j], key)
            &&& forall|j: int| i <= j < keys.len() ==> key_lt(key, #[trigger] keys[j])
        },
    ensures
        found ==> {
            &&& leaf_in_order(keys, lo, hi)
            &&& forall|k: Seq<u8>, v: Seq<u8>| #[trigger]
                leaf_has(keys, values.update(i, value), k, v) <==> if k == key {
                    v == value
                } else {
                    leaf_has(keys, values, k, v)
                }
        },
        !found ==> {
            &&& leaf_in_order(keys.insert(i, key), lo, hi)
            &&& forall|k: Seq<u8>, v: Seq<u8>| #[trigger]
                leaf_has(keys.insert(i, key), values.insert(i, value), k, v) <==> if k == key {
                    v == value
                } else {
                    leaf_has(keys, values, k, v)
                }
        },
{
    key_order_is_strict(key, key);
    if found {
        let values2 = values.update(i, value);
        assert forall|k: Seq<u8>, v: Seq<u8>| #[trigger] leaf_has(keys, values2, k, v) <==> if k == key {
            v == value
        } else {
            leaf_has(keys, values, k, v)
        } by {
            if leaf_has(keys, values2, k, v) {
                let j = choose|j: int| 0 <= j < keys.len() && #[trigger] keys[j] == k && values2[j] == v;
                if k == key {
                    assert(j == i);
                } else {
                    assert(values[j] == v);
                }
            }
            if k == key && v == value {
                assert(keys[i] == k && values2[i] == v);
            }
            if k != key && leaf_has(keys, values, k, v) {
                let j = choose|j: int| 0 <= j < keys.len() && #[trigger] keys[j] == k && values[j] == v;
                assert(keys[j] == k && values2[j] == v);
            }
        }
    } else {
        let keys2 = keys.insert(i, key);
        let values2 = values.insert(i, value);
        assert forall|a: int, b: int| 0 <= a < b < keys2.len() implies key_lt(#[trigger] keys2[a], #[trigger] keys2[b]) by {
            if a == i {
                assert(keys2[b] == keys[b - 1]);
            } else if b == i {
                assert(keys2[a] == keys[a]);
            } else {
                let x = if a < i { a } else { a - 1 };
                let y = if b < i { b } else { b - 1 };
                assert(keys2[a] == keys[x] && keys2[b] == keys[y]);
            }
        }
        assert forall|a: int| 0 <= a < keys2.len() implies within(#[trigger] keys2[a], lo, hi) by {
            if a != i {
                let x = if a < i { a } else { a - 1 };
                assert(keys2[a] == keys[x]);
            }
        }
        assert forall|k: Seq<u8>, v: Seq<u8>| #[trigger] leaf_has(keys2, values2, k, v) <==> if k == key {
            v == value
        } else {
            leaf_has(keys, values, k, v)
        } by {
            if leaf_has(keys2, values2, k, v) {
                let j = choose|j: int| 0 <= j < keys2.len() && #[trigger] keys2[j] == k && values2[j] == v;
                if j != i {
                    let x = if j < i { j } else { j - 1 };
                    assert(keys[x] == k && values[x] == v);
                }
            }
            if k == key && v == value {
                assert(keys2[i] == k && values2[i] == v);
            }
            if k != key && leaf_has(keys, values, k, v) {
                let j = choose|j: int| 0 <= j < keys.len() && #[trigger] keys[j] == k && values[j] == v;
                let x = if j < i { j } else { j + 1 };
                assert(keys2[x] == k && values2[x] == v);
            }
        }
    }
}

/// The entry at `i` is taken out of a leaf.
pub proof fn lemma_leaf_delete(
    keys: Seq<Seq<u8>>,
    values: Seq<Seq<u8>>,
    lo: Seq<u8>,
    hi: Option<Seq<u8>>,
    i: int,
)
    requires
        keys.len() == values.len(),
        leaf_in_order(keys, lo, hi),
        0 <= i < keys.len(),
    ensures
        leaf_in_order(keys.remove(i), lo, hi),
        forall|k: Seq<u8>, v: Seq<u8>| #[trigger]
            leaf_has(keys.remove(i), values.remove(i), k, v) <==> k != keys[i] && leaf_has(keys, values, k, v),
{
    let keys2 = keys.remove(i);
    let values2 = values.remove(i);
    key_order_is_strict(keys[i], keys[i]);
    assert forall|a: int, b: int| 0 <= a < b < keys2.len() implies key_lt(#[trigger] keys2[a], #[trigger] keys2[b]) by {
        let x = if a < i { a } else { a + 1 };
        let y = if b < i { b } else { b + 1 };
        assert(keys2[a] == keys[x] && keys2[b] == keys[y]);
    }
    assert forall|a: int| 0 <= a < keys2.len() implies within(#[trigger] keys2[a], lo, hi) by {
        let x = if a < i { a } else { a + 1 };
        assert(keys2[a] == keys[x]);
    }
    assert forall|k: Seq<u8>, v: Seq<u8>| #[trigger] leaf_has(keys2, values2, k, v) <==> k != keys[i] && leaf_has(
        keys,
        values,
        k,
        v,
    ) by {
        if leaf_has(keys2, values2, k, v) {
            let j = choose|j: int| 0 <= j < keys2.len() && #[trigger] keys2[j] == k && values2[j] == v;
            let x = if j < i { j } else { j + 1 };
            assert(keys[x] == k && values[x] == v);
        }
        if k != keys[i] && leaf_has(keys, values, k, v) {
            let j = choose|j: int| 0 <= j < keys.len() && #[trigger] keys[j] == k && values[j] == v;
            let x = if j < i { j } else { j - 1 };
            assert(keys2[x] == k && values2[x] == v);
        }
    }
}

} // verus!
