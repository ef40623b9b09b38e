//! How large a node is, how a node that has grown too large is cut, and what
//! storing a pair makes of a tree.
//!
//! A node past the threshold is cut in two, with as many keys on either side.
//! Where a half would not go into a page, the cut is made beside the entry that
//! was changed, on both sides of it if need be.

use vstd::prelude::*;

use super::btree::{all_sized, extends, is_no_larger, none_larger, Node, NodeView, SPLIT_THRESHOLD};
use super::codec::{PageRecord, CHECKSUM_SIZE, PAGE_CAPACITY};
use super::keys::{
    branch_of, every_key_has_a_branch, every_key_has_a_place, is_branch, is_place, key_le, key_lt,
    key_order_is_strict, key_order_is_total, place_of, the_empty_key_comes_first,
};
use super::pager::PageId;
use super::tree::{
    a_leaf_holds_its_entries, after_delete, after_put, contents, contents_are_kept, contents_are_the_pairs, depth_of,
    entry_fits, family_has, fence_above, fence_below, has, height, holds_pair, is_even, is_family, is_level, is_store,
    is_tree, kept_before, leaf_has, leaf_in_order, lemma_descent, lemma_family_cut, lemma_family_kept,
    lemma_family_makes_tree, lemma_family_replaced, lemma_family_spliced, lemma_family_widened,
    lemma_internal_is_family, lemma_leaf_cut, lemma_leaf_delete, lemma_leaf_put, lemma_level_depth, lemma_same_pairs,
    lemma_tree_depth, separates, separators_in_order, sized, spliced_children, spliced_keys, trees_are_kept, within,
    Nodes, MAX_ENTRY, MAX_KEYS,
};
use super::wire::{blobs, internal_bytes, leaf_bytes, lemma_blobs_len, lemma_blobs_removed, lemma_integers, lemma_words_len};

verus! {

// ---------------------------------------------------------------------------
// Sizes
// ---------------------------------------------------------------------------

/// The bytes that a node takes in a page, checksum and all.
pub open spec fn node_size(node: NodeView) -> int {
    Node::body(node).len() + CHECKSUM_SIZE
}

/// A page has room for the node.
pub open spec fn goes_into_a_page(node: NodeView) -> bool {
    Node::body(node).len() <= PAGE_CAPACITY
}

/// The keys of a node.
pub open spec fn keys_of(node: NodeView) -> Seq<Seq<u8>> {
    match node {
        NodeView::Leaf { keys, values } => keys,
        NodeView::Internal { keys, children } => keys,
    }
}

/// The lists of a node go together.
pub open spec fn is_paired(node: NodeView) -> bool {
    match node {
        NodeView::Leaf { keys, values } => keys.len() == values.len(),
        NodeView::Internal { keys, children } => children.len() == keys.len() + 1,
    }
}

pub proof fn lemma_leaf_len(keys: Seq<Seq<u8>>, values: Seq<Seq<u8>>)
    requires
        keys.len() == values.len() <= MAX_KEYS + 1,
        forall|i: int| 0 <= i < keys.len() ==> entry_fits(#[trigger] keys[i], #[trigger] values[i]),
    ensures
        20 + 16 * keys.len() <= leaf_bytes(0, keys, values).len() <= 0xf000_0000,
{
    lemma_integers();
    assert forall|i: int| 0 <= i < keys.len() implies (#[trigger] keys[i]).len() <= MAX_ENTRY by {
        assert(entry_fits(keys[i], values[i]));
    }
    assert forall|i: int| 0 <= i < values.len() implies (#[trigger] values[i]).len() <= MAX_ENTRY by {
        assert(entry_fits(keys[i], values[i]));
    }
    lemma_blobs_len(keys, MAX_ENTRY as nat);
    lemma_blobs_len(values, MAX_ENTRY as nat);
    assert(keys.len() * (8 + MAX_ENTRY as nat) <= 257 * 0x40_0008) by (nonlinear_arith)
        requires
            keys.len() <= 257,
            MAX_ENTRY == 0x40_0000,
    ;
}

pub proof fn lemma_internal_len(keys: Seq<Seq<u8>>, children: Seq<PageId>)
    requires
        keys.len() + 1 == children.len(),
        keys.len() <= MAX_KEYS + 2,
        forall|i: int| 0 <= i < keys.len() ==> (#[trigger] keys[i]).len() <= MAX_ENTRY,
    ensures
        28 + 16 * keys.len() <= internal_bytes(1, keys, children).len() <= 0xf000_0000,
        keys.len() == 0 ==> internal_bytes(1, keys, children).len() == 28,
{
    lemma_integers();
    lemma_blobs_len(keys, MAX_ENTRY as nat);
    lemma_words_len(children);
    assert(keys.len() * (8 + MAX_ENTRY as nat) <= 258 * 0x40_0008) by (nonlinear_arith)
        requires
            keys.len() <= 258,
            MAX_ENTRY == 0x40_0000,
    ;
}

/// The size of a node whose keys are few and short enough can be computed.
pub proof fn lemma_sized_len(node: NodeView)
    requires
        sized(node),
    ensures
        Node::body(node).len() <= 0xf000_0000,
{
    match node {
        NodeView::Leaf { keys, values } => lemma_leaf_len(keys, values),
        NodeView::Internal { keys, children } => lemma_internal_len(keys, children),
    }
}

/// Two lists one after the other take as many bytes as both.
proof fn lemma_blobs_joined(a: Seq<Seq<u8>>, b: Seq<Seq<u8>>)
    ensures
        blobs(a + b).len() == blobs(a).len() + blobs(b).len(),
    decreases a.len(),
{
    if a.len() == 0 {
        assert(a + b =~= b);
    } else {
        lemma_blobs_joined(a.skip(1), b);
        assert((a + b).skip(1) =~= a.skip(1) + b);
        assert((a + b)[0] == a[0]);
    }
}

/// A part of a list does not take more bytes than the list.
proof fn lemma_blobs_of_part(list: Seq<Seq<u8>>, from: int, to: int)
    requires
        0 <= from <= to <= list.len(),
    ensures
        blobs(list.subrange(from, to)).len() <= blobs(list).len(),
{
    let before = list.subrange(0, from);
    let part = list.subrange(from, to);
    let after = list.subrange(to, list.len() as int);
    assert(list =~= before + (part + after));
    lemma_blobs_joined(before, part + after);
    lemma_blobs_joined(part, after);
}

/// A list of one string takes eight bytes more than the string.
proof fn lemma_blobs_of_one(one: Seq<u8>)
    ensures
        blobs(seq![one]).len() == 8 + one.len(),
{
    lemma_integers();
    assert(seq![one].skip(1) =~= Seq::empty());
    assert(seq![one][0] == one);
    assert(blobs(seq![one].skip(1)).len() == 0);
}

/// What the size of a node is made of.
pub proof fn lemma_node_size(node: NodeView)
    ensures
        node matches NodeView::Leaf { keys, values } ==> Node::body(node).len() == 20 + blobs(keys).len() + blobs(
            values,
        ).len(),
        node matches NodeView::Internal { keys, children } ==> Node::body(node).len() == 20 + blobs(keys).len() + 8
            * children.len(),
{
    lemma_integers();
    match node {
        NodeView::Leaf { keys, values } => {},
        NodeView::Internal { keys, children } => lemma_words_len(children),
    }
}

/// Every string of a list takes eight bytes and its own, no more than the list.
proof fn lemma_blobs_one_by_one(list: Seq<Seq<u8>>)
    ensures
        8 * list.len() <= blobs(list).len(),
        forall|i: int| 0 <= i < list.len() ==> 8 + (#[trigger] list[i]).len() <= blobs(list).len(),
{
    assert forall|i: int| 0 <= i < list.len() implies 8 + (#[trigger] list[i]).len() <= blobs(list).len() by {
        lemma_blobs_of_part(list, i, i + 1);
        lemma_blobs_of_one(list[i]);
        assert(list.subrange(i, i + 1) =~= seq![list[i]]);
    }
    assert forall|i: int| 0 <= i < list.len() implies (#[trigger] list[i]).len() <= blobs(list).len() by {
        assert(8 + list[i].len() <= blobs(list).len());
    }
    lemma_blobs_len(list, blobs(list).len());
}

/// A node that a page can hold, with as many values as keys or one child more, is
/// within every limit that a tree sets to its nodes.
pub proof fn a_node_that_a_page_can_hold_can_stand_in_a_tree(node: NodeView)
    requires
        4 + Node::body(node).len() <= 4096,
        node matches NodeView::Leaf { keys, values } ==> keys.len() == values.len(),
        node matches NodeView::Internal { keys, children } ==> children.len() == keys.len() + 1,
    ensures
        sized(node),
        goes_into_a_page(node),
{
    lemma_node_size(node);
    match node {
        NodeView::Leaf { keys, values } => {
            lemma_blobs_one_by_one(keys);
            lemma_blobs_one_by_one(values);
            assert forall|i: int| 0 <= i < keys.len() implies entry_fits(#[trigger] keys[i], #[trigger] values[i]) by {
                assert(8 + keys[i].len() <= blobs(keys).len());
                assert(8 + values[i].len() <= blobs(values).len());
            }
        },
        NodeView::Internal { keys, children } => {
            lemma_blobs_one_by_one(keys);
            assert forall|i: int| 0 <= i < keys.len() implies (#[trigger] keys[i]).len() <= MAX_ENTRY by {
                assert(8 + keys[i].len() <= blobs(keys).len());
            }
        },
    }
}

// ---------------------------------------------------------------------------
// Cuts
// ---------------------------------------------------------------------------

/// The keys from `from` to before `to` with what belongs to them.
pub open spec fn piece(whole: NodeView, from: int, to: int) -> NodeView {
    match whole {
        NodeView::Leaf { keys, values } => NodeView::Leaf {
            keys: keys.subrange(from, to),
            values: values.subrange(from, to),
        },
        NodeView::Internal { keys, children } => NodeView::Internal {
            keys: keys.subrange(from, to),
            children: children.subrange(from, to + 1),
        },
    }
}

/// Where the piece after a cut begins. A leaf keeps the key at a cut; an
/// internal node gives it to its parent.
pub open spec fn past(whole: NodeView, cut: int) -> int {
    if whole is Leaf {
        cut
    } else {
        cut + 1
    }
}

/// Both parts that a cut makes go into a page.
pub open spec fn cut_fits(whole: NodeView, cut: int) -> bool {
    &&& goes_into_a_page(piece(whole, 0, cut))
    &&& goes_into_a_page(piece(whole, past(whole, cut), keys_of(whole).len() as int))
}

/// Where a node is cut after its entry `at` has changed: nowhere up to the
/// threshold, in the middle if both halves go into a page, and otherwise before
/// the entry, after it, or both.
pub open spec fn cuts(whole: NodeView, at: int) -> Seq<int> {
    let n = keys_of(whole).len() as int;
    if node_size(whole) <= SPLIT_THRESHOLD {
        Seq::empty()
    } else if cut_fits(whole, n / 2) {
        seq![n / 2]
    } else if at + 1 >= n || cut_fits(whole, at) {
        seq![at]
    } else if cut_fits(whole, at + 1) {
        seq![at + 1]
    } else {
        seq![at, at + 1]
    }
}

/// The pieces between the cuts.
pub open spec fn pieces(whole: NodeView, cuts: Seq<int>) -> Seq<NodeView> {
    let n = keys_of(whole).len() as int;
    if cuts.len() == 0 {
        seq![whole]
    } else if cuts.len() == 1 {
        seq![piece(whole, 0, cuts[0]), piece(whole, past(whole, cuts[0]), n)]
    } else {
        seq![
            piece(whole, 0, cuts[0]),
            piece(whole, past(whole, cuts[0]), cuts[1]),
            piece(whole, past(whole, cuts[1]), n),
        ]
    }
}

/// The keys at the cuts.
pub open spec fn keys_at(keys: Seq<Seq<u8>>, cuts: Seq<int>) -> Seq<Seq<u8>> {
    Seq::new(cuts.len(), |i: int| keys[cuts[i]])
}

/// `count` page ids from `start` on.
pub open spec fn ids_from(start: PageId, count: nat) -> Seq<PageId> {
    Seq::new(count, |i: int| (start + i) as PageId)
}

/// New nodes on pages from `start` on.
pub open spec fn placed(nodes: Nodes, start: PageId, list: Seq<NodeView>) -> Nodes {
    Map::new(
        |id: PageId| nodes.contains_key(id) || start <= id < start + list.len(),
        |id: PageId|
            if start <= id < start + list.len() {
                list[id - start]
            } else {
                nodes[id]
            },
    )
}

/// Trees side by side with separators between them, the nodes that they stand
/// among, and the next page id.
pub struct Grown {
    pub nodes: Nodes,
    pub ids: Seq<PageId>,
    pub seps: Seq<Seq<u8>>,
    pub next: PageId,
}

/// A node whose entry `at` has changed, stored in one page or, cut, in several.
pub open spec fn settled(nodes: Nodes, whole: NodeView, at: int, start: PageId) -> Grown {
    let cut = cuts(whole, at);
    let list = pieces(whole, cut);
    Grown {
        nodes: placed(nodes, start, list),
        ids: ids_from(start, list.len()),
        seps: keys_at(keys_of(whole), cut),
        next: (start + list.len()) as PageId,
    }
}

/// The leaf is within its limits, with one entry more than a stored one at
/// most.
pub open spec fn is_full_leaf(whole: NodeView, at: int, lo: Seq<u8>, hi: Option<Seq<u8>>) -> bool {
    whole matches NodeView::Leaf { keys, values } && {
        &&& keys.len() == values.len() <= MAX_KEYS + 1
        &&& 0 <= at < keys.len()
        &&& leaf_in_order(keys, lo, hi)
        &&& forall|i: int| 0 <= i < keys.len() ==> entry_fits(#[trigger] keys[i], #[trigger] values[i])
    }
}

/// The internal node is within its limits, with two separators more than a
/// stored one at most.
pub open spec fn is_full_internal(
    nodes: Nodes,
    whole: NodeView,
    at: int,
    lo: Seq<u8>,
    hi: Option<Seq<u8>>,
    limit: int,
    depth: nat,
) -> bool {
    whole matches NodeView::Internal { keys, children } && {
        &&& keys.len() <= MAX_KEYS + 2
        &&& 0 <= at <= MAX_KEYS
        &&& keys.len() > 0 ==> at < keys.len()
        &&& is_family(nodes, keys, children, lo, hi, limit, depth)
    }
}

/// What `cuts` gives of a leaf.
proof fn lemma_leaf_cuts(whole: NodeView, at: int, lo: Seq<u8>, hi: Option<Seq<u8>>)
    requires
        is_full_leaf(whole, at, lo, hi),
    ensures
        cuts(whole, at).len() <= 2,
        forall|i: int| 0 <= i < cuts(whole, at).len() ==> 0 <= #[trigger] cuts(whole, at)[i] < keys_of(whole).len(),
        cuts(whole, at).len() == 2 ==> cuts(whole, at)[0] < cuts(whole, at)[1],
        forall|i: int| 0 <= i < pieces(whole, cuts(whole, at)).len() ==> sized(#[trigger] pieces(whole, cuts(whole, at))[i]),
{
    let keys = whole->Leaf_keys;
    let values = whole->values;
    let n = keys.len() as int;
    lemma_leaf_len(keys, values);
    let c = cuts(whole, at);
    let list = pieces(whole, c);
    assert forall|from: int, to: int| 0 <= from <= to <= n && to - from <= MAX_KEYS implies sized(
        #[trigger] piece(whole, from, to),
    ) by {
        let part = piece(whole, from, to);
        assert forall|i: int| 0 <= i < part->Leaf_keys.len() implies entry_fits(
            #[trigger] part->Leaf_keys[i],
            #[trigger] part->values[i],
        ) by {
            assert(entry_fits(keys[from + i], values[from + i]));
        }
    }
    assert forall|from: int, to: int| 0 <= from <= to <= n && goes_into_a_page(
        #[trigger] piece(whole, from, to),
    ) implies to - from <= 254 by {
        let part = piece(whole, from, to);
        assert forall|i: int| 0 <= i < part->Leaf_keys.len() implies entry_fits(
            #[trigger] part->Leaf_keys[i],
            #[trigger] part->values[i],
        ) by {
            assert(entry_fits(keys[from + i], values[from + i]));
        }
        lemma_leaf_len(part->Leaf_keys, part->values);
    }
    if c.len() == 0 {
        assert(list[0] == whole);
    } else if c.len() == 1 {
        assert(list[0] == piece(whole, 0, c[0]));
        assert(list[1] == piece(whole, c[0], n));
    } else {
        assert(list[0] == piece(whole, 0, at));
        assert(list[1] == piece(whole, at, at + 1));
        assert(list[2] == piece(whole, at + 1, n));
    }
}

/// What `cuts` gives of an internal node.
proof fn lemma_internal_cuts(
    nodes: Nodes,
    whole: NodeView,
    at: int,
    lo: Seq<u8>,
    hi: Option<Seq<u8>>,
    limit: int,
    depth: nat,
)
    requires
        is_full_internal(nodes, whole, at, lo, hi, limit, depth),
    ensures
        cuts(whole, at).len() <= 2,
        forall|i: int| 0 <= i < cuts(whole, at).len() ==> 0 <= #[trigger] cuts(whole, at)[i] < keys_of(whole).len(),
        cuts(whole, at).len() == 2 ==> cuts(whole, at)[0] < cuts(whole, at)[1],
        forall|i: int| 0 <= i < pieces(whole, cuts(whole, at)).len() ==> sized(#[trigger] pieces(whole, cuts(whole, at))[i]),
{
    let keys = whole->Internal_keys;
    let children = whole->children;
    let n = keys.len() as int;
    lemma_internal_len(keys, children);
    let c = cuts(whole, at);
    let list = pieces(whole, c);
    assert forall|from: int, to: int| 0 <= from <= to <= n && to - from <= MAX_KEYS implies sized(
        #[trigger] piece(whole, from, to),
    ) by {
        let part = piece(whole, from, to);
        assert forall|i: int| 0 <= i < part->Internal_keys.len() implies (#[trigger] part->Internal_keys[i]).len()
            <= MAX_ENTRY by {
            assert(keys[from + i].len() <= MAX_ENTRY);
        }
    }
    assert forall|from: int, to: int| 0 <= from <= to <= n && goes_into_a_page(
        #[trigger] piece(whole, from, to),
    ) implies to - from <= 254 by {
        let part = piece(whole, from, to);
        assert forall|i: int| 0 <= i < part->Internal_keys.len() implies (#[trigger] part->Internal_keys[i]).len()
            <= MAX_ENTRY by {
            assert(keys[from + i].len() <= MAX_ENTRY);
        }
        lemma_internal_len(part->Internal_keys, part->children);
    }
    if c.len() == 0 {
        assert(list[0] == whole);
    } else if c.len() == 1 {
        assert(list[0] == piece(whole, 0, c[0]));
        assert(list[1] == piece(whole, c[0] + 1, n));
    } else {
        assert(list[0] == piece(whole, 0, at));
        assert(list[1] == piece(whole, at + 1, at + 1));
        assert(list[2] == piece(whole, at + 2, n));
    }
}

/// A leaf holds what stands in its lists.
pub proof fn lemma_leaf_holds(nodes: Nodes, id: PageId, keys: Seq<Seq<u8>>, values: Seq<Seq<u8>>)
    requires
        nodes[id] == (NodeView::Leaf { keys, values }),
    ensures
        forall|k: Seq<u8>, v: Seq<u8>| #[trigger] has(nodes, id, k, v) <==> leaf_has(keys, values, k, v),
{
    a_leaf_holds_its_entries(nodes, id);
}

/// What came of a tree between `lo` and `hi`, no more than `depth` deep: one to
/// three such trees side by side, with roots on pages from `start` on. If all of
/// its leaves were `depth` steps away, all of theirs are.
pub open spec fn is_growth(
    nodes: Nodes,
    g: Grown,
    lo: Seq<u8>,
    hi: Option<Seq<u8>>,
    start: PageId,
    depth: nat,
    even: bool,
) -> bool {
    &&& is_family(g.nodes, g.seps, g.ids, lo, hi, g.next as int, depth)
    &&& g.seps.len() <= 2
    &&& forall|i: int|
        #![trigger g.ids[i]]
        0 <= i < g.ids.len() ==> start <= g.ids[i] && (even ==> is_level(g.nodes, g.ids[i], depth))
    &&& start < g.next
    &&& extends(nodes, g.nodes, start, g.next)
    &&& all_sized(g.nodes, start, g.next)
}

/// Where the pieces of a node stand.
proof fn lemma_settled_pages(nodes: Nodes, whole: NodeView, at: int, start: PageId)
    requires
        start + 3 <= u64::MAX,
        cuts(whole, at).len() <= 2,
    ensures
        ({
            let g = settled(nodes, whole, at, start);
            let list = pieces(whole, cuts(whole, at));
            &&& list.len() == cuts(whole, at).len() + 1
            &&& g.ids.len() == list.len()
            &&& g.seps.len() == cuts(whole, at).len()
            &&& g.next == start + list.len()
            &&& forall|i: int|
                #![trigger g.ids[i]]
                #![trigger list[i]]
                0 <= i < list.len() ==> g.ids[i] == start + i && g.nodes[g.ids[i]] == list[i]
            &&& extends(nodes, g.nodes, start, g.next)
            &&& forall|id: PageId| start <= id < g.next ==> #[trigger] g.nodes[id] == list[id - start]
        }),
{
}

/// A leaf that is stored, cut or not, holds what it held.
#[verifier::rlimit(40)]
pub proof fn lemma_settled_leaf(
    nodes: Nodes,
    whole: NodeView,
    at: int,
    start: PageId,
    lo: Seq<u8>,
    hi: Option<Seq<u8>>,
    depth: nat,
)
    requires
        is_full_leaf(whole, at, lo, hi),
        start + 3 <= u64::MAX,
    ensures
        is_growth(nodes, settled(nodes, whole, at, start), lo, hi, start, depth, depth == 0),
        settled(nodes, whole, at, start).next <= start + 3,
        forall|k: Seq<u8>, v: Seq<u8>| #[trigger]
            family_has(settled(nodes, whole, at, start).nodes, settled(nodes, whole, at, start).ids, k, v)
                <==> leaf_has(whole->Leaf_keys, whole->values, k, v),
{
    let g = settled(nodes, whole, at, start);
    let c = cuts(whole, at);
    let list = pieces(whole, c);
    let keys = whole->Leaf_keys;
    let values = whole->values;
    let n = keys.len() as int;
    lemma_leaf_cuts(whole, at, lo, hi);
    lemma_settled_pages(nodes, whole, at, start);
    let ids = g.ids;
    assert forall|i: int| 0 <= i < list.len() implies (forall|k: Seq<u8>, v: Seq<u8>| #[trigger]
        has(g.nodes, ids[i], k, v) <==> leaf_has((#[trigger] list[i])->Leaf_keys, list[i]->values, k, v)) by {
        lemma_leaf_holds(g.nodes, ids[i], list[i]->Leaf_keys, list[i]->values);
    }
    if c.len() == 0 {
        assert(list[0] == whole);
        assert(ids[0] == start);
        assert(is_tree(g.nodes, ids[0], lo, hi, g.next as int, depth));
    } else if c.len() == 1 {
        let m = c[0];
        lemma_leaf_cut(keys, values, lo, hi, m);
        assert(entry_fits(keys[m], values[m]));
        assert(g.seps[0] == keys[m]);
        assert(list[0] == piece(whole, 0, m) && list[1] == piece(whole, m, n));
        assert(is_tree(g.nodes, ids[0], lo, Some(keys[m]), g.next as int, depth));
        assert(is_tree(g.nodes, ids[1], keys[m], hi, g.next as int, depth));
    } else {
        let a = c[0];
        let b = c[1];
        lemma_leaf_cut(keys, values, lo, hi, a);
        let rk = keys.subrange(a, n);
        let rv = values.subrange(a, n);
        lemma_leaf_cut(rk, rv, keys[a], hi, b - a);
        assert(rk.subrange(0, b - a) =~= keys.subrange(a, b));
        assert(rv.subrange(0, b - a) =~= values.subrange(a, b));
        assert(rk.subrange(b - a, rk.len() as int) =~= keys.subrange(b, n));
        assert(rv.subrange(b - a, rv.len() as int) =~= values.subrange(b, n));
        assert(rk[b - a] == keys[b]);
        assert(entry_fits(keys[a], values[a]) && entry_fits(keys[b], values[b]));
        assert(g.seps[0] == keys[a] && g.seps[1] == keys[b]);
        key_order_is_strict(keys[a], keys[b]);
        assert(within(keys[b], lo, hi));
        if let Some(h) = hi {
            key_order_is_strict(keys[b], h);
        }
        assert(list[0] == piece(whole, 0, a) && list[1] == piece(whole, a, b) && list[2] == piece(whole, b, n));
        assert(is_tree(g.nodes, ids[0], lo, Some(keys[a]), g.next as int, depth));
        assert(is_tree(g.nodes, ids[1], keys[a], Some(keys[b]), g.next as int, depth));
        assert(is_tree(g.nodes, ids[2], keys[b], hi, g.next as int, depth));
    }
    assert forall|id: PageId| start <= id < g.next implies sized(#[trigger] g.nodes[id]) by {
        assert(sized(list[id - start]));
    }
    assert forall|k: Seq<u8>, v: Seq<u8>| #[trigger] family_has(g.nodes, ids, k, v) <==> leaf_has(keys, values, k, v) by {
        if family_has(g.nodes, ids, k, v) {
            let i = choose|i: int| 0 <= i < ids.len() && has(g.nodes, #[trigger] ids[i], k, v);
            assert(leaf_has(list[i]->Leaf_keys, list[i]->values, k, v));
        }
        if leaf_has(keys, values, k, v) {
            if leaf_has(list[0]->Leaf_keys, list[0]->values, k, v) {
                assert(has(g.nodes, ids[0], k, v));
            } else if leaf_has(list[1]->Leaf_keys, list[1]->values, k, v) {
                assert(has(g.nodes, ids[1], k, v));
            } else {
                assert(leaf_has(list[2]->Leaf_keys, list[2]->values, k, v));
                assert(has(g.nodes, ids[2], k, v));
            }
        }
    }
}

/// A part of a family, put on a page of its own, is a tree.
proof fn lemma_part_makes_tree(
    before: Nodes,
    after: Nodes,
    id: PageId,
    keys: Seq<Seq<u8>>,
    children: Seq<PageId>,
    lo: Seq<u8>,
    hi: Option<Seq<u8>>,
    start: int,
    end: int,
    depth: nat,
    even: bool,
)
    requires
        start <= id < end,
        is_family(before, keys, children, lo, hi, start, depth),
        keys.len() <= MAX_KEYS,
        after.contains_key(id),
        after[id] == (NodeView::Internal { keys, children }),
        kept_before(before, after, start),
        even ==> forall|i: int| 0 <= i < children.len() ==> is_level(before, #[trigger] children[i], depth),
    ensures
        is_tree(after, id, lo, hi, end, depth + 1),
        even ==> is_level(after, id, depth + 1),
        forall|k: Seq<u8>, v: Seq<u8>| #[trigger] has(after, id, k, v) <==> family_has(before, children, k, v),
{
    lemma_family_kept(before, after, keys, children, lo, hi, start, depth);
    lemma_family_widened(after, keys, children, lo, hi, start, end, depth);
    lemma_family_makes_tree(after, id, keys, children, lo, hi, end, depth);
    if even {
        assert forall|i: int| #![trigger children[i]] 0 <= i < children.len() implies is_level(
            after,
            children[i],
            depth,
        ) by {
            trees_are_kept(
                before,
                after,
                children[i],
                fence_below(keys, lo, i),
                fence_above(keys, hi, i),
                start,
                depth,
            );
        }
        assert(((depth + 1) - 1) as nat == depth);
    }
}

/// An internal node that is stored, cut or not, holds what it held.
#[verifier::rlimit(60)]
pub proof fn lemma_settled_internal(
    nodes: Nodes,
    whole: NodeView,
    at: int,
    start: PageId,
    lo: Seq<u8>,
    hi: Option<Seq<u8>>,
    depth: nat,
    even: bool,
)
    requires
        is_full_internal(nodes, whole, at, lo, hi, start as int, depth),
        start + 3 <= u64::MAX,
        even ==> forall|i: int| 0 <= i < whole->children.len() ==> is_level(nodes, #[trigger] whole->children[i], depth),
    ensures
        is_growth(nodes, settled(nodes, whole, at, start), lo, hi, start, depth + 1, even),
        settled(nodes, whole, at, start).next <= start + 3,
        forall|k: Seq<u8>, v: Seq<u8>| #[trigger]
            family_has(settled(nodes, whole, at, start).nodes, settled(nodes, whole, at, start).ids, k, v)
                <==> family_has(nodes, whole->children, k, v),
{
    let g = settled(nodes, whole, at, start);
    let c = cuts(whole, at);
    let list = pieces(whole, c);
    let keys = whole->Internal_keys;
    let children = whole->children;
    let n = keys.len() as int;
    lemma_internal_cuts(nodes, whole, at, lo, hi, start as int, depth);
    lemma_settled_pages(nodes, whole, at, start);
    let ids = g.ids;
    if c.len() == 0 {
        assert(list[0] == whole);
        assert(sized(list[0]));
        lemma_part_makes_tree(nodes, g.nodes, ids[0], keys, children, lo, hi, start as int, g.next as int, depth, even);
    } else if c.len() == 1 {
        let m = c[0];
        lemma_family_cut(nodes, keys, children, lo, hi, start as int, depth, m);
        let l = piece(whole, 0, m);
        let r = piece(whole, m + 1, n);
        assert(list[0] == l && list[1] == r);
        assert(sized(list[0]) && sized(list[1]));
        assert(g.seps[0] == keys[m]);
        assert(separates(keys[m], lo, hi));
        lemma_part_makes_tree(nodes, g.nodes, ids[0], l->Internal_keys, l->children, lo, Some(keys[m]), start as int, g.next as int, depth, even);
        lemma_part_makes_tree(nodes, g.nodes, ids[1], r->Internal_keys, r->children, keys[m], hi, start as int, g.next as int, depth, even);
    } else {
        let a = c[0];
        let b = c[1];
        lemma_family_cut(nodes, keys, children, lo, hi, start as int, depth, a);
        let rk = keys.subrange(a + 1, n);
        let rc = children.subrange(a + 1, n + 1);
        lemma_family_cut(nodes, rk, rc, keys[a], hi, start as int, depth, b - a - 1);
        assert(rk.subrange(0, b - a - 1) =~= keys.subrange(a + 1, b));
        assert(rc.subrange(0, b - a) =~= children.subrange(a + 1, b + 1));
        assert(rk.subrange(b - a, rk.len() as int) =~= keys.subrange(b + 1, n));
        assert(rc.subrange(b - a, rc.len() as int) =~= children.subrange(b + 1, n + 1));
        assert(rk[b - a - 1] == keys[b]);
        let l = piece(whole, 0, a);
        let m = piece(whole, a + 1, b);
        let r = piece(whole, b + 1, n);
        assert(list[0] == l && list[1] == m && list[2] == r);
        assert(sized(list[0]) && sized(list[1]) && sized(list[2]));
        assert(g.seps[0] == keys[a] && g.seps[1] == keys[b]);
        assert(separates(keys[a], lo, hi) && separates(keys[b], lo, hi));
        assert(key_le(keys[a], keys[b]));
        lemma_part_makes_tree(nodes, g.nodes, ids[0], l->Internal_keys, l->children, lo, Some(keys[a]), start as int, g.next as int, depth, even);
        lemma_part_makes_tree(
            nodes,
            g.nodes,
            ids[1],
            m->Internal_keys,
            m->children,
            keys[a],
            Some(keys[b]),
            start as int,
            g.next as int,
            depth,
            even,
        );
        lemma_part_makes_tree(nodes, g.nodes, ids[2], r->Internal_keys, r->children, keys[b], hi, start as int, g.next as int, depth, even);
    }
    assert forall|id: PageId| start <= id < g.next implies sized(#[trigger] g.nodes[id]) by {
        assert(sized(list[id - start]));
    }
    assert forall|i: int| #![trigger list[i]] 0 <= i < list.len() implies (forall|k: Seq<u8>, v: Seq<u8>| #[trigger]
        has(g.nodes, ids[i], k, v) <==> family_has(nodes, list[i]->children, k, v)) by {
        assert(i == 0 || i == 1 || i == 2);
    }
    assert forall|k: Seq<u8>, v: Seq<u8>| #[trigger] family_has(g.nodes, ids, k, v) <==> family_has(
        nodes,
        children,
        k,
        v,
    ) by {
        lemma_pieces_have(nodes, whole, c, k, v);
        if family_has(g.nodes, ids, k, v) {
            let i = choose|i: int| 0 <= i < ids.len() && has(g.nodes, #[trigger] ids[i], k, v);
            assert(family_has(nodes, list[i]->children, k, v));
        }
        if family_has(nodes, children, k, v) {
            let i = choose|i: int| 0 <= i < list.len() && family_has(nodes, (#[trigger] list[i])->children, k, v);
            assert(has(g.nodes, ids[i], k, v));
        }
    }
}

/// The pieces of an internal node hold what it holds.
proof fn lemma_pieces_have(nodes: Nodes, whole: NodeView, cuts: Seq<int>, k: Seq<u8>, v: Seq<u8>)
    requires
        whole is Internal,
        is_paired(whole),
        cuts.len() <= 2,
        forall|i: int| 0 <= i < cuts.len() ==> 0 <= #[trigger] cuts[i] < keys_of(whole).len(),
        cuts.len() == 2 ==> cuts[0] < cuts[1],
    ensures
        family_has(nodes, whole->children, k, v) <==> (exists|i: int|
            0 <= i < pieces(whole, cuts).len() && family_has(
                nodes,
                (#[trigger] pieces(whole, cuts)[i])->children,
                k,
                v,
            )),
{
    let list = pieces(whole, cuts);
    let children = whole->children;
    let n = keys_of(whole).len() as int;
    if family_has(nodes, children, k, v) {
        let j = choose|j: int| 0 <= j < children.len() && has(nodes, #[trigger] children[j], k, v);
        if cuts.len() == 0 {
            assert(list[0]->children[j] == children[j]);
        } else if j <= cuts[0] {
            assert(list[0]->children[j] == children[j]);
            assert(family_has(nodes, list[0]->children, k, v));
        } else if cuts.len() == 1 || j <= cuts[1] {
            assert(list[1]->children[j - cuts[0] - 1] == children[j]);
            assert(family_has(nodes, list[1]->children, k, v));
        } else {
            assert(list[2]->children[j - cuts[1] - 1] == children[j]);
            assert(family_has(nodes, list[2]->children, k, v));
        }
    }
    if exists|i: int| 0 <= i < list.len() && family_has(nodes, (#[trigger] list[i])->children, k, v) {
        let i = choose|i: int| 0 <= i < list.len() && family_has(nodes, (#[trigger] list[i])->children, k, v);
        let part = list[i]->children;
        let j = choose|j: int| 0 <= j < part.len() && has(nodes, #[trigger] part[j], k, v);
        let shift = if i == 0 {
            0
        } else if i == 1 {
            cuts[0] + 1
        } else {
            cuts[1] + 1
        };
        assert(children[shift + j] == part[j]);
    }
}

// ---------------------------------------------------------------------------
// Storing a pair
// ---------------------------------------------------------------------------

/// The leaf after `value` was stored under `key`.
pub open spec fn leaf_with(keys: Seq<Seq<u8>>, values: Seq<Seq<u8>>, key: Seq<u8>, value: Seq<u8>) -> NodeView {
    let i = place_of(keys, key);
    if i < keys.len() && keys[i] == key {
        NodeView::Leaf { keys, values: values.update(i, value) }
    } else {
        NodeView::Leaf { keys: keys.insert(i, key), values: values.insert(i, value) }
    }
}

/// The internal node whose child `i` was replaced by what came of it.
pub open spec fn internal_with(keys: Seq<Seq<u8>>, children: Seq<PageId>, i: int, g: Grown) -> NodeView {
    NodeView::Internal { keys: spliced_keys(keys, i, g.seps), children: spliced_children(children, i, g.ids) }
}

/// The entry of an internal node at or before `i` that it is cut at.
pub open spec fn changed_at(node: NodeView, i: int) -> int {
    let n = keys_of(node).len() as int;
    if i < n {
        i
    } else if n == 0 {
        0
    } else {
        n - 1
    }
}

/// What comes of the subtree at `id`, no more than `depth` deep, when `value` is
/// stored under `key`: every node on the way from the leaf up is stored anew, on
/// pages from `start` on.
pub open spec fn put_in(
    nodes: Nodes,
    id: PageId,
    key: Seq<u8>,
    value: Seq<u8>,
    start: PageId,
    depth: nat,
) -> Grown
    decreases depth,
{
    match nodes[id] {
        NodeView::Leaf { keys, values } => settled(
            nodes,
            leaf_with(keys, values, key, value),
            place_of(keys, key),
            start,
        ),
        NodeView::Internal { keys, children } => {
            let i = branch_of(keys, key);
            if depth > 0 {
                let g = put_in(nodes, children[i], key, value, start, (depth - 1) as nat);
                let node = internal_with(keys, children, i, g);
                settled(g.nodes, node, changed_at(node, i), g.next)
            } else {
                Grown { nodes, ids: seq![id], seps: Seq::empty(), next: start }
            }
        },
    }
}

/// How many nodes there are on the way from `id` to the leaf that `key` belongs
/// to, in a tree no more than `depth` deep.
pub open spec fn steps(nodes: Nodes, id: PageId, key: Seq<u8>, depth: nat) -> nat
    decreases depth,
{
    match nodes[id] {
        NodeView::Leaf { keys, values } => 1,
        NodeView::Internal { keys, children } => if depth > 0 {
            1 + steps(nodes, children[branch_of(keys, key)], key, (depth - 1) as nat)
        } else {
            1
        },
    }
}

/// How many nodes there are on the way to the leaf that `key` belongs to.
pub open spec fn path_len(nodes: Nodes, root: Option<PageId>, key: Seq<u8>) -> nat {
    match root {
        Some(id) => steps(nodes, id, key, depth_of(nodes, id)),
        None => 0,
    }
}

/// The way to a leaf is no longer than the tree is deep, and just as long where
/// all leaves are equally far away.
pub proof fn lemma_steps(
    nodes: Nodes,
    id: PageId,
    lo: Seq<u8>,
    hi: Option<Seq<u8>>,
    limit: int,
    depth: nat,
    key: Seq<u8>,
)
    requires
        is_tree(nodes, id, lo, hi, limit, depth),
        within(key, lo, hi),
    ensures
        1 <= steps(nodes, id, key, depth) <= depth + 1,
        is_level(nodes, id, depth) ==> steps(nodes, id, key, depth) == depth + 1,
    decreases depth,
{
    if let NodeView::Internal { keys, children } = nodes[id] {
        lemma_branch(nodes, id, lo, hi, limit, depth, key);
        let i = branch_of(keys, key);
        lemma_steps(
            nodes,
            children[i],
            fence_below(keys, lo, i),
            fence_above(keys, hi, i),
            limit,
            (depth - 1) as nat,
            key,
        );
    }
}

/// The way to a leaf is no longer than the store is high, and just as long where
/// all leaves are equally far away.
pub proof fn a_path_is_no_longer_than_the_store_is_high(
    nodes: Nodes,
    root: Option<PageId>,
    limit: int,
    key: Seq<u8>,
)
    requires
        is_store(nodes, root, limit),
    ensures
        path_len(nodes, root, key) <= height(nodes, root),
        is_even(nodes, root) ==> path_len(nodes, root, key) == height(nodes, root),
{
    if let Some(id) = root {
        the_empty_key_comes_first(key);
        lemma_steps(nodes, id, Seq::empty(), None, limit, depth_of(nodes, id), key);
    }
}

/// Trees side by side under one root: a tree that stands alone is its own root,
/// several get a new one above them, and three whose separators no page holds
/// together get two nodes between.
pub open spec fn under_one_root(g: Grown) -> Grown {
    let root = NodeView::Internal { keys: g.seps, children: g.ids };
    if g.seps.len() == 0 {
        g
    } else if g.seps.len() == 1 || goes_into_a_page(root) {
        Grown {
            nodes: placed(g.nodes, g.next, seq![root]),
            ids: seq![g.next],
            seps: Seq::empty(),
            next: (g.next + 1) as PageId,
        }
    } else {
        Grown {
            nodes: placed(
                g.nodes,
                g.next,
                seq![
                    NodeView::Internal { keys: seq![g.seps[0]], children: seq![g.ids[0], g.ids[1]] },
                    NodeView::Internal { keys: Seq::empty(), children: seq![g.ids[2]] },
                    NodeView::Internal { keys: seq![g.seps[1]], children: seq![g.next, (g.next + 1) as PageId] },
                ],
            ),
            ids: seq![(g.next + 2) as PageId],
            seps: Seq::empty(),
            next: (g.next + 3) as PageId,
        }
    }
}

/// What comes of a store when `value` is stored under `key`. The new root is
/// the only id.
pub open spec fn put_under(nodes: Nodes, root: Option<PageId>, key: Seq<u8>, value: Seq<u8>, start: PageId) -> Grown {
    match root {
        None => Grown {
            nodes: placed(nodes, start, seq![NodeView::Leaf { keys: seq![key], values: seq![value] }]),
            ids: seq![start],
            seps: Seq::empty(),
            next: (start + 1) as PageId,
        },
        Some(id) => under_one_root(put_in(nodes, id, key, value, start, depth_of(nodes, id))),
    }
}

/// Adding nodes and then adding more is adding nodes.
pub proof fn lemma_extends_chain(a: Nodes, b: Nodes, c: Nodes, start: PageId, middle: PageId, end: PageId)
    requires
        extends(a, b, start, middle),
        extends(b, c, middle, end),
        start <= middle <= end,
    ensures
        extends(a, c, start, end),
{
    assert forall|id: PageId| !(start <= id < end) && #[trigger] a.contains_key(id) implies c[id] == a[id] by {
        assert(b.contains_key(id));
    }
    assert forall|id: PageId| #[trigger] c.contains_key(id) <==> a.contains_key(id) || start <= id < end by {
        assert(b.contains_key(id) <==> a.contains_key(id) || start <= id < middle);
    }
}

/// A leaf with one pair more, or another value, is within its limits.
pub proof fn lemma_leaf_with(
    keys: Seq<Seq<u8>>,
    values: Seq<Seq<u8>>,
    lo: Seq<u8>,
    hi: Option<Seq<u8>>,
    key: Seq<u8>,
    value: Seq<u8>,
)
    requires
        sized(NodeView::Leaf { keys, values }),
        leaf_in_order(keys, lo, hi),
        within(key, lo, hi),
        entry_fits(key, value),
    ensures
        is_full_leaf(leaf_with(keys, values, key, value), place_of(keys, key), lo, hi),
        forall|k: Seq<u8>, v: Seq<u8>| #[trigger]
            leaf_has(
                leaf_with(keys, values, key, value)->Leaf_keys,
                leaf_with(keys, values, key, value)->values,
                k,
                v,
            ) <==> if k == key {
                v == value
            } else {
                leaf_has(keys, values, k, v)
            },
{
    let i = place_of(keys, key);
    every_key_has_a_place(keys, key);
    let found = i < keys.len() && keys[i] == key;
    assert forall|j: int| i <= j < keys.len() && !found implies key_lt(key, #[trigger] keys[j]) by {
        key_order_is_total(keys[i], key);
        if j > i {
            super::keys::key_order_is_transitive(key, keys[i], keys[j]);
        }
    }
    lemma_leaf_put(keys, values, lo, hi, key, value, i, found);
    let whole = leaf_with(keys, values, key, value);
    assert forall|j: int| 0 <= j < whole->Leaf_keys.len() implies entry_fits(
        #[trigger] whole->Leaf_keys[j],
        #[trigger] whole->values[j],
    ) by {
        if found {
            assert(entry_fits(keys[j], values[j]));
        } else if j < i {
            assert(entry_fits(keys[j], values[j]));
        } else if j > i {
            assert(entry_fits(keys[j - 1], values[j - 1]));
        }
    }
}

/// Storing a pair in the one child that its key belongs to stores it in the
/// whole family.
proof fn lemma_put_in_family(
    before: Nodes,
    middle: Nodes,
    id: PageId,
    children: Seq<PageId>,
    i: int,
    kids: Seq<PageId>,
    key: Seq<u8>,
    value: Seq<u8>,
    k: Seq<u8>,
    v: Seq<u8>,
)
    requires
        0 <= i < children.len(),
        has(before, id, k, v) <==> family_has(before, children, k, v),
        forall|j: int|
            0 <= j < children.len() ==> (#[trigger] has(middle, children[j], k, v) <==> has(before, children[j], k, v)),
        forall|j: int| 0 <= j < children.len() && j != i ==> !#[trigger] has(before, children[j], key, v),
        family_has(middle, kids, k, v) <==> after_put(before, children[i], key, value, k, v),
    ensures
        family_has(middle, kids, k, v) || (exists|j: int|
            0 <= j < children.len() && j != i && has(middle, #[trigger] children[j], k, v)) <==> after_put(
            before,
            id,
            key,
            value,
            k,
            v,
        ),
{
    if exists|j: int| 0 <= j < children.len() && j != i && has(middle, #[trigger] children[j], k, v) {
        let j = choose|j: int| 0 <= j < children.len() && j != i && has(middle, #[trigger] children[j], k, v);
        assert(has(before, children[j], k, v));
    }
    if k != key && has(before, id, k, v) {
        let j = choose|j: int| 0 <= j < children.len() && has(before, #[trigger] children[j], k, v);
        assert(has(middle, children[j], k, v));
    }
    if k != key && has(before, children[i], k, v) {
        assert(family_has(before, children, k, v));
    }
}

/// What the child of an internal node is to it.
pub proof fn lemma_branch(
    nodes: Nodes,
    id: PageId,
    lo: Seq<u8>,
    hi: Option<Seq<u8>>,
    limit: int,
    depth: nat,
    key: Seq<u8>,
)
    requires
        is_tree(nodes, id, lo, hi, limit, depth),
        nodes[id] is Internal,
        within(key, lo, hi),
    ensures
        ({
            let keys = nodes[id]->Internal_keys;
            let children = nodes[id]->children;
            let i = branch_of(keys, key);
            &&& 0 <= i <= keys.len()
            &&& is_branch(keys, key, i)
            &&& depth > 0
            &&& is_tree(
                nodes,
                children[i],
                fence_below(keys, lo, i),
                fence_above(keys, hi, i),
                limit,
                (depth - 1) as nat,
            )
            &&& is_level(nodes, id, depth) ==> is_level(nodes, children[i], (depth - 1) as nat)
            &&& within(key, fence_below(keys, lo, i), fence_above(keys, hi, i))
        }),
{
    let keys = nodes[id]->Internal_keys;
    every_key_has_a_branch(keys, key);
    lemma_descent(nodes, id, lo, hi, limit, depth, key, branch_of(keys, key));
}

/// A family whose child `i` grew into several is an internal node within its
/// limits.
pub proof fn lemma_internal_with(
    nodes: Nodes,
    id: PageId,
    lo: Seq<u8>,
    hi: Option<Seq<u8>>,
    depth: nat,
    i: int,
    start: PageId,
    g: Grown,
    even: bool,
)
    requires
        is_tree(nodes, id, lo, hi, start as int, depth),
        even ==> is_level(nodes, id, depth),
        nodes[id] is Internal,
        0 <= i <= nodes[id]->Internal_keys.len(),
        is_growth(
            nodes,
            g,
            fence_below(nodes[id]->Internal_keys, lo, i),
            fence_above(nodes[id]->Internal_keys, hi, i),
            start,
            (depth - 1) as nat,
            even,
        ),
    ensures
        ({
            let keys = nodes[id]->Internal_keys;
            let children = nodes[id]->children;
            let whole = internal_with(keys, children, i, g);
            &&& is_full_internal(g.nodes, whole, changed_at(whole, i), lo, hi, g.next as int, (depth - 1) as nat)
            &&& even ==> forall|j: int|
                0 <= j < whole->children.len() ==> is_level(
                    g.nodes,
                    #[trigger] whole->children[j],
                    (depth - 1) as nat,
                )
            &&& forall|k: Seq<u8>, v: Seq<u8>| #[trigger]
                family_has(g.nodes, whole->children, k, v) <==> family_has(g.nodes, g.ids, k, v) || (exists|j: int|
                    0 <= j < children.len() && j != i && has(g.nodes, #[trigger] children[j], k, v))
            &&& forall|j: int, k: Seq<u8>, v: Seq<u8>|
                0 <= j < children.len() ==> (#[trigger] has(g.nodes, children[j], k, v) <==> has(
                    nodes,
                    children[j],
                    k,
                    v,
                ))
        }),
{
    let keys = nodes[id]->Internal_keys;
    let children = nodes[id]->children;
    let whole = internal_with(keys, children, i, g);
    let less = (depth - 1) as nat;
    lemma_internal_is_family(nodes, id, lo, hi, start as int, depth);
    lemma_family_kept(nodes, g.nodes, keys, children, lo, hi, start as int, less);
    lemma_family_widened(g.nodes, keys, children, lo, hi, start as int, g.next as int, less);
    lemma_family_spliced(g.nodes, keys, children, lo, hi, g.next as int, less, i, g.seps, g.ids);
    let all = whole->children;
    if even {
        assert forall|j: int| 0 <= j < all.len() implies is_level(g.nodes, #[trigger] all[j], less) by {
            let m = g.seps.len() as int;
            if j < i {
                assert(all[j] == children[j]);
                lemma_child_level(nodes, g.nodes, id, lo, hi, start as int, depth, j);
            } else if j <= i + m {
                assert(all[j] == g.ids[j - i]);
            } else {
                assert(all[j] == children[j - m]);
                lemma_child_level(nodes, g.nodes, id, lo, hi, start as int, depth, j - m);
            }
        }
    }
}

/// A child's leaves stay where they are while other pages are added.
proof fn lemma_child_level(
    before: Nodes,
    after: Nodes,
    id: PageId,
    lo: Seq<u8>,
    hi: Option<Seq<u8>>,
    limit: int,
    depth: nat,
    j: int,
)
    requires
        is_tree(before, id, lo, hi, limit, depth),
        is_level(before, id, depth),
        before[id] is Internal,
        0 <= j < before[id]->children.len(),
        kept_before(before, after, limit),
    ensures
        is_level(after, before[id]->children[j], (depth - 1) as nat),
{
    let keys = before[id]->Internal_keys;
    let child = before[id]->children[j];
    trees_are_kept(
        before,
        after,
        child,
        fence_below(keys, lo, j),
        fence_above(keys, hi, j),
        limit,
        (depth - 1) as nat,
    );
}

/// What comes of a subtree in which a pair is stored holds that pair and what
/// the subtree held under other keys. It takes three pages for each node on the
/// way at most.
#[verifier::rlimit(40)]
pub proof fn lemma_put_in(
    nodes: Nodes,
    id: PageId,
    key: Seq<u8>,
    value: Seq<u8>,
    start: PageId,
    lo: Seq<u8>,
    hi: Option<Seq<u8>>,
    depth: nat,
)
    requires
        is_tree(nodes, id, lo, hi, start as int, depth),
        within(key, lo, hi),
        entry_fits(key, value),
        start + 3 * steps(nodes, id, key, depth) <= u64::MAX,
    ensures
        is_growth(nodes, put_in(nodes, id, key, value, start, depth), lo, hi, start, depth, is_level(nodes, id, depth)),
        put_in(nodes, id, key, value, start, depth).next <= start + 3 * steps(nodes, id, key, depth),
        forall|k: Seq<u8>, v: Seq<u8>| #[trigger]
            family_has(
                put_in(nodes, id, key, value, start, depth).nodes,
                put_in(nodes, id, key, value, start, depth).ids,
                k,
                v,
            ) <==> after_put(nodes, id, key, value, k, v),
    decreases depth,
{
    let r = put_in(nodes, id, key, value, start, depth);
    match nodes[id] {
        NodeView::Leaf { keys, values } => {
            lemma_leaf_with(keys, values, lo, hi, key, value);
            lemma_leaf_holds(nodes, id, keys, values);
            lemma_settled_leaf(nodes, leaf_with(keys, values, key, value), place_of(keys, key), start, lo, hi, depth);
            assert forall|k: Seq<u8>, v: Seq<u8>| #[trigger] family_has(r.nodes, r.ids, k, v) <==> after_put(
                nodes,
                id,
                key,
                value,
                k,
                v,
            ) by {
                assert(has(nodes, id, k, v) <==> leaf_has(keys, values, k, v));
            }
        },
        NodeView::Internal { keys, children } => {
            let i = branch_of(keys, key);
            lemma_branch(nodes, id, lo, hi, start as int, depth, key);
            let below = fence_below(keys, lo, i);
            let above = fence_above(keys, hi, i);
            let less = (depth - 1) as nat;
            let even = is_level(nodes, id, depth);
            lemma_put_in(nodes, children[i], key, value, start, below, above, less);
            let g = put_in(nodes, children[i], key, value, start, less);
            lemma_internal_with(nodes, id, lo, hi, depth, i, start, g, even);
            let whole = internal_with(keys, children, i, g);
            lemma_settled_internal(g.nodes, whole, changed_at(whole, i), g.next, lo, hi, less, even);
            lemma_extends_chain(nodes, g.nodes, r.nodes, start, g.next, r.next);
            assert forall|other: PageId| start <= other < r.next implies sized(#[trigger] r.nodes[other]) by {
                if other < g.next {
                    assert(g.nodes.contains_key(other));
                    assert(sized(g.nodes[other]));
                }
            }
            lemma_internal_is_family(nodes, id, lo, hi, start as int, depth);
            lemma_descent(nodes, id, lo, hi, start as int, depth, key, i);
            assert forall|k: Seq<u8>, v: Seq<u8>| #[trigger] family_has(r.nodes, r.ids, k, v) <==> after_put(
                nodes,
                id,
                key,
                value,
                k,
                v,
            ) by {
                lemma_put_in_family(nodes, g.nodes, id, children, i, g.ids, key, value, k, v);
            }
        },
    }
}

/// Trees side by side, put under one root, hold what they held.
#[verifier::rlimit(40)]
proof fn lemma_under_one_root(nodes: Nodes, g: Grown, start: PageId, depth: nat, even: bool)
    requires
        is_growth(nodes, g, Seq::empty(), None, start, depth, even),
        g.next + 3 <= u64::MAX,
    ensures
        ({
            let r = under_one_root(g);
            &&& r.ids.len() == 1
            &&& start <= r.ids[0] < r.next <= g.next + 3
            &&& is_store(r.nodes, Some(r.ids[0]), r.next as int)
            &&& depth_of(r.nodes, r.ids[0]) <= depth + 2
            &&& even ==> is_even(r.nodes, Some(r.ids[0]))
            &&& extends(nodes, r.nodes, start, r.next)
            &&& all_sized(r.nodes, start, r.next)
            &&& forall|k: Seq<u8>, v: Seq<u8>| #[trigger]
                has(r.nodes, r.ids[0], k, v) <==> family_has(g.nodes, g.ids, k, v)
        }),
{
    let r = under_one_root(g);
    let lo = Seq::<u8>::empty();
    let root = NodeView::Internal { keys: g.seps, children: g.ids };
    if g.seps.len() == 0 {
        assert(g.ids.len() == 1);
        assert(fence_below(g.seps, lo, 0) == lo);
        lemma_new_root(r.nodes, r.ids[0], r.next as int, depth, even);
        assert forall|k: Seq<u8>, v: Seq<u8>| #[trigger] has(r.nodes, r.ids[0], k, v) <==> family_has(
            g.nodes,
            g.ids,
            k,
            v,
        ) by {}
    } else if g.seps.len() == 1 || goes_into_a_page(root) {
        let id = g.next;
        assert(r.nodes[id] == root) by {
            assert(seq![root][0] == root);
        }
        lemma_part_makes_tree(g.nodes, r.nodes, id, g.seps, g.ids, lo, None, g.next as int, r.next as int, depth, even);
        lemma_new_root(r.nodes, id, r.next as int, depth + 1, even);
        lemma_extends_chain(nodes, g.nodes, r.nodes, start, g.next, r.next);
    } else {
        let s0 = g.seps[0];
        let s1 = g.seps[1];
        let a = NodeView::Internal { keys: seq![s0], children: seq![g.ids[0], g.ids[1]] };
        let b = NodeView::Internal { keys: Seq::empty(), children: seq![g.ids[2]] };
        let a_id = g.next;
        let b_id = (g.next + 1) as PageId;
        let id = (g.next + 2) as PageId;
        let top_keys = seq![s1];
        let top = seq![a_id, b_id];
        lemma_family_cut(g.nodes, g.seps, g.ids, lo, None, g.next as int, depth, 1);
        assert(g.seps.subrange(0, 1) =~= seq![s0]);
        assert(g.ids.subrange(0, 2) =~= seq![g.ids[0], g.ids[1]]);
        assert(g.seps.subrange(2, 2) =~= Seq::empty());
        assert(g.ids.subrange(2, 3) =~= seq![g.ids[2]]);
        assert(r.nodes[a_id] == a);
        assert(r.nodes[b_id] == b);
        assert(r.nodes[id] == (NodeView::Internal { keys: top_keys, children: top }));
        lemma_part_makes_tree(g.nodes, r.nodes, a_id, a->Internal_keys, a->children, lo, Some(s1), g.next as int, id as int, depth, even);
        lemma_part_makes_tree(g.nodes, r.nodes, b_id, b->Internal_keys, b->children, s1, None, g.next as int, id as int, depth, even);
        the_empty_key_comes_first(s1);
        assert(separators_in_order(top_keys, lo, None));
        assert(g.seps[1].len() <= MAX_ENTRY);
        assert forall|i: int| #![trigger top[i]] 0 <= i < top.len() implies is_tree(
            r.nodes,
            top[i],
            fence_below(top_keys, lo, i),
            fence_above(top_keys, None, i),
            id as int,
            depth + 1,
        ) by {
            if i == 0 {
                assert(top[0] == a_id);
                assert(fence_above(top_keys, None, 0) == Some(s1));
            } else {
                assert(top[1] == b_id);
                assert(fence_below(top_keys, lo, 1) == s1);
            }
        }
        assert(is_family(r.nodes, top_keys, top, lo, None, id as int, depth + 1));
        lemma_part_makes_tree(
            r.nodes,
            r.nodes,
            id,
            top_keys,
            top,
            lo,
            None,
            id as int,
            r.next as int,
            depth + 1,
            even,
        );
        lemma_new_root(r.nodes, id, r.next as int, depth + 2, even);
        lemma_extends_chain(nodes, g.nodes, r.nodes, start, g.next, r.next);
        assert forall|k: Seq<u8>, v: Seq<u8>| #[trigger] has(r.nodes, id, k, v) <==> family_has(g.nodes, g.ids, k, v) by {
            assert(has(r.nodes, top[0], k, v) <==> family_has(g.nodes, a->children, k, v));
            assert(has(r.nodes, top[1], k, v) <==> family_has(g.nodes, b->children, k, v));
            assert(family_has(r.nodes, top, k, v) <==> has(r.nodes, top[0], k, v) || has(r.nodes, top[1], k, v));
            if family_has(g.nodes, g.ids, k, v) {
                let j = choose|j: int| 0 <= j < g.ids.len() && has(g.nodes, #[trigger] g.ids[j], k, v);
                if j < 2 {
                    assert(a->children[j] == g.ids[j]);
                } else {
                    assert(b->children[0] == g.ids[j]);
                }
            }
        }
    }
    assert forall|other: PageId| start <= other < r.next implies sized(#[trigger] r.nodes[other]) by {
        if other < g.next {
            assert(g.nodes.contains_key(other));
            assert(sized(g.nodes[other]));
        }
    }
}

/// A tree on its own is a store.
proof fn lemma_new_root(nodes: Nodes, id: PageId, limit: int, depth: nat, even: bool)
    requires
        is_tree(nodes, id, Seq::empty(), None, limit, depth),
        even ==> is_level(nodes, id, depth),
    ensures
        is_store(nodes, Some(id), limit),
        depth_of(nodes, id) <= depth,
        even ==> is_even(nodes, Some(id)) && depth_of(nodes, id) == depth,
{
    lemma_tree_depth(nodes, id, Seq::empty(), None, limit, depth);
    if even {
        lemma_level_depth(nodes, id, Seq::empty(), None, limit, depth, depth);
    }
}

/// Storing a pair makes a store that holds that pair and what was stored under
/// other keys, and leaves the old one as it was. It takes three pages at most for
/// each node on the way, and three for a new root.
#[verifier::rlimit(40)]
pub proof fn a_put_stores_the_pair(nodes: Nodes, root: Option<PageId>, key: Seq<u8>, value: Seq<u8>, start: PageId)
    requires
        is_store(nodes, root, start as int),
        start + 3 * path_len(nodes, root, key) + 3 <= u64::MAX,
        entry_fits(key, value),
    ensures
        ({
            let g = put_under(nodes, root, key, value, start);
            &&& g.ids.len() == 1
            &&& start <= g.ids[0] < g.next <= start + 3 * path_len(nodes, root, key) + 3
            &&& is_store(g.nodes, Some(g.ids[0]), g.next as int)
            &&& contents(g.nodes, Some(g.ids[0])) == contents(nodes, root).insert(key, value)
            &&& height(g.nodes, Some(g.ids[0])) <= height(nodes, root) + 2
            &&& is_even(nodes, root) ==> is_even(g.nodes, Some(g.ids[0]))
            &&& extends(nodes, g.nodes, start, g.next)
            &&& all_sized(g.nodes, start, g.next)
            &&& is_store(g.nodes, root, start as int)
            &&& contents(g.nodes, root) == contents(nodes, root)
        }),
{
    let r = put_under(nodes, root, key, value, start);
    let new_root = r.ids[0];
    contents_are_the_pairs(nodes, root, start as int);
    the_empty_key_comes_first(key);
    let m = contents(nodes, root).insert(key, value);
    match root {
        None => {
            let leaf = NodeView::Leaf { keys: seq![key], values: seq![value] };
            assert(r.nodes[start] == leaf) by {
                assert(seq![leaf][0] == leaf);
            }
            assert(is_tree(r.nodes, start, Seq::empty(), None, r.next as int, 0));
            lemma_new_root(r.nodes, start, r.next as int, 0, true);
            lemma_leaf_holds(r.nodes, start, seq![key], seq![value]);
            assert forall|k: Seq<u8>, v: Seq<u8>| #[trigger] holds_pair(r.nodes, Some(start), k, v) <==> m.contains_key(
                k,
            ) && m[k] == v by {
                assert(!holds_pair(nodes, root, k, v));
                if k == key && v == value {
                    assert(seq![key][0] == k && seq![value][0] == v);
                }
                assert(has(r.nodes, start, k, v) <==> leaf_has(seq![key], seq![value], k, v));
                if m.contains_key(k) && k != key {
                    assert(holds_pair(nodes, root, k, m[k]));
                }
            }
        },
        Some(id) => {
            let depth = depth_of(nodes, id);
            let even = is_level(nodes, id, depth);
            lemma_put_in(nodes, id, key, value, start, Seq::empty(), None, depth);
            let g = put_in(nodes, id, key, value, start, depth);
            lemma_under_one_root(nodes, g, start, depth, even);
            assert forall|k: Seq<u8>, v: Seq<u8>| #[trigger] holds_pair(r.nodes, Some(new_root), k, v)
                <==> m.contains_key(k) && m[k] == v by {
                assert(has(r.nodes, new_root, k, v) <==> family_has(g.nodes, g.ids, k, v));
                assert(family_has(g.nodes, g.ids, k, v) <==> after_put(nodes, id, key, value, k, v));
                assert(holds_pair(nodes, root, k, v) <==> has(nodes, id, k, v));
            }
        },
    }
    lemma_same_pairs(r.nodes, Some(new_root), r.next as int, m);
    contents_are_kept(nodes, r.nodes, root, start as int);
}

// ---------------------------------------------------------------------------
// What goes into pages stays so
// ---------------------------------------------------------------------------

/// A key and a value of this many bytes or less can always be stored. The
/// longest of them still goes into a page as a separator.
pub const RECORD_BUDGET: usize = 4048;

/// Every key with its value is within the budget.
pub open spec fn within_budget(m: Map<Seq<u8>, Seq<u8>>) -> bool {
    forall|k: Seq<u8>| #[trigger] m.contains_key(k) ==> k.len() + m[k].len() <= RECORD_BUDGET
}

/// Every node goes into a page.
pub open spec fn all_go_into_pages(nodes: Nodes) -> bool {
    forall|id: PageId| #[trigger] nodes.contains_key(id) ==> goes_into_a_page(nodes[id])
}

/// A part of a node does not take more bytes than the node.
pub proof fn lemma_piece_size(whole: NodeView, from: int, to: int)
    requires
        is_paired(whole),
        0 <= from <= to <= keys_of(whole).len(),
    ensures
        Node::body(piece(whole, from, to)).len() <= Node::body(whole).len(),
{
    lemma_node_size(whole);
    lemma_node_size(piece(whole, from, to));
    lemma_blobs_of_part(keys_of(whole), from, to);
    if whole is Leaf {
        lemma_blobs_of_part(whole->values, from, to);
    }
}

/// What stands before and after the entry `at` goes into pages.
spec fn can_be_cut(whole: NodeView, at: int) -> bool {
    let n = keys_of(whole).len() as int;
    ||| goes_into_a_page(whole)
    ||| {
        &&& 0 <= at < n
        &&& goes_into_a_page(piece(whole, 0, at))
        &&& match whole {
            NodeView::Leaf { keys, values } => {
                &&& goes_into_a_page(piece(whole, at, at + 1))
                &&& goes_into_a_page(piece(whole, at + 1, n))
            },
            NodeView::Internal { keys, children } => {
                ||| goes_into_a_page(piece(whole, at + 1, n))
                ||| at + 1 < n && goes_into_a_page(piece(whole, at + 2, n))
            },
        }
    }
}

/// A node that goes into pages on both sides of the entry that has changed is
/// cut so that every piece goes into a page.
proof fn lemma_pieces_fit(whole: NodeView, at: int)
    requires
        is_paired(whole),
        can_be_cut(whole, at),
    ensures
        forall|i: int|
            0 <= i < pieces(whole, cuts(whole, at)).len() ==> goes_into_a_page(
                #[trigger] pieces(whole, cuts(whole, at))[i],
            ),
{
    let n = keys_of(whole).len() as int;
    let list = pieces(whole, cuts(whole, at));
    lemma_node_size(whole);
    if node_size(whole) > SPLIT_THRESHOLD {
        if n == 0 {
            lemma_no_keys_is_small(whole);
        }
        if goes_into_a_page(whole) {
            lemma_piece_size(whole, 0, n / 2);
            lemma_piece_size(whole, past(whole, n / 2), n);
            assert(cut_fits(whole, n / 2));
        }
        if whole is Internal && !goes_into_a_page(whole) && at + 1 < n {
            lemma_node_size(piece(whole, at + 1, at + 1));
            assert(blobs(keys_of(piece(whole, at + 1, at + 1))).len() == 0);
        }
    }
    assert forall|i: int| 0 <= i < list.len() implies goes_into_a_page(#[trigger] list[i]) by {
        assert(i == 0 || i == 1 || i == 2);
    }
}

/// A node without keys is within the threshold.
pub proof fn lemma_no_keys_is_small(whole: NodeView)
    requires
        is_paired(whole),
        keys_of(whole).len() == 0,
    ensures
        node_size(whole) <= SPLIT_THRESHOLD,
{
    lemma_node_size(whole);
}

/// The separators of an internal node that goes into a page are within the
/// budget.
proof fn lemma_separator_len(keys: Seq<Seq<u8>>, children: Seq<PageId>, i: int)
    requires
        0 <= i < keys.len(),
        children.len() == keys.len() + 1,
        goes_into_a_page(NodeView::Internal { keys, children }),
    ensures
        keys[i].len() <= RECORD_BUDGET,
{
    lemma_node_size(NodeView::Internal { keys, children });
    lemma_blobs_of_part(keys, i, i + 1);
    assert(keys.subrange(i, i + 1) =~= seq![keys[i]]);
    lemma_blobs_of_one(keys[i]);
}

/// A leaf that goes into a page, and a pair within the budget, make a leaf that
/// can be cut.
proof fn lemma_leaf_with_fits(keys: Seq<Seq<u8>>, values: Seq<Seq<u8>>, key: Seq<u8>, value: Seq<u8>)
    requires
        keys.len() == values.len(),
        goes_into_a_page(NodeView::Leaf { keys, values }),
        is_place(keys, key, place_of(keys, key)),
        key.len() + value.len() <= RECORD_BUDGET,
    ensures
        can_be_cut(leaf_with(keys, values, key, value), place_of(keys, key)),
{
    let old_leaf = NodeView::Leaf { keys, values };
    let whole = leaf_with(keys, values, key, value);
    let at = place_of(keys, key);
    let n = keys_of(whole).len() as int;
    let m = keys.len() as int;
    let alone = NodeView::Leaf { keys: seq![key], values: seq![value] };
    lemma_piece_size(old_leaf, 0, at);
    assert(keys_of(whole).subrange(0, at) =~= keys.subrange(0, at));
    assert(whole->values.subrange(0, at) =~= values.subrange(0, at));
    assert(keys_of(whole).subrange(at, at + 1) =~= seq![key]);
    assert(whole->values.subrange(at, at + 1) =~= seq![value]);
    assert(piece(whole, at, at + 1) == alone);
    lemma_node_size(alone);
    lemma_blobs_of_one(key);
    lemma_blobs_of_one(value);
    if at < m && keys[at] == key {
        lemma_piece_size(old_leaf, at + 1, m);
        assert(keys_of(whole).subrange(at + 1, n) =~= keys.subrange(at + 1, m));
        assert(whole->values.subrange(at + 1, n) =~= values.subrange(at + 1, m));
    } else {
        lemma_piece_size(old_leaf, at, m);
        assert(keys_of(whole).subrange(at + 1, n) =~= keys.subrange(at, m));
        assert(whole->values.subrange(at + 1, n) =~= values.subrange(at, m));
    }
}

/// An internal node that goes into a page can be cut after one of its children
/// grew into several.
proof fn lemma_internal_with_fits(keys: Seq<Seq<u8>>, children: Seq<PageId>, i: int, g: Grown)
    requires
        children.len() == keys.len() + 1,
        goes_into_a_page(NodeView::Internal { keys, children }),
        0 <= i <= keys.len(),
        g.ids.len() == g.seps.len() + 1,
        g.seps.len() <= 2,
    ensures
        can_be_cut(internal_with(keys, children, i, g), changed_at(internal_with(keys, children, i, g), i)),
{
    let old_node = NodeView::Internal { keys, children };
    let whole = internal_with(keys, children, i, g);
    let at = changed_at(whole, i);
    let n = keys.len() as int;
    let m = g.seps.len() as int;
    lemma_node_size(old_node);
    lemma_node_size(whole);
    if m == 0 {
        assert(keys_of(whole) =~= keys);
    } else {
        lemma_piece_size(old_node, 0, i);
        lemma_node_size(piece(old_node, 0, i));
        lemma_node_size(piece(whole, 0, at));
        assert(keys_of(whole).subrange(0, i) =~= keys.subrange(0, i));
        lemma_piece_size(old_node, i, n);
        lemma_node_size(piece(old_node, i, n));
        lemma_node_size(piece(whole, i + m, n + m));
        assert(keys_of(whole).subrange(i + m, n + m) =~= keys.subrange(i, n));
    }
}

/// The nodes that storing a pair within the budget makes go into pages, if all
/// nodes did and every key was within the budget.
pub proof fn lemma_put_fits(
    nodes: Nodes,
    id: PageId,
    key: Seq<u8>,
    value: Seq<u8>,
    start: PageId,
    lo: Seq<u8>,
    hi: Option<Seq<u8>>,
    depth: nat,
)
    requires
        is_tree(nodes, id, lo, hi, start as int, depth),
        within(key, lo, hi),
        start + 3 * steps(nodes, id, key, depth) <= u64::MAX,
        key.len() + value.len() <= RECORD_BUDGET,
        all_go_into_pages(nodes),
        forall|k: Seq<u8>, v: Seq<u8>| #[trigger] has(nodes, id, k, v) ==> k.len() <= RECORD_BUDGET,
    ensures
        all_go_into_pages(put_in(nodes, id, key, value, start, depth).nodes),
        forall|i: int|
            0 <= i < put_in(nodes, id, key, value, start, depth).seps.len() ==> (#[trigger] put_in(
                nodes,
                id,
                key,
                value,
                start,
                depth,
            ).seps[i]).len() <= RECORD_BUDGET,
    decreases depth,
{
    let r = put_in(nodes, id, key, value, start, depth);
    match nodes[id] {
        NodeView::Leaf { keys, values } => {
            let whole = leaf_with(keys, values, key, value);
            let at = place_of(keys, key);
            lemma_leaf_with(keys, values, lo, hi, key, value);
            every_key_has_a_place(keys, key);
            lemma_leaf_with_fits(keys, values, key, value);
            lemma_leaf_cuts(whole, at, lo, hi);
            lemma_settled_pages(nodes, whole, at, start);
            lemma_pieces_fit(whole, at);
            lemma_leaf_holds(nodes, id, keys, values);
            assert forall|j: int| 0 <= j < keys_of(whole).len() implies (#[trigger] keys_of(whole)[j]).len()
                <= RECORD_BUDGET by {
                let k = keys_of(whole)[j];
                let v = whole->values[j];
                assert(leaf_has(whole->Leaf_keys, whole->values, k, v));
                if k != key {
                    assert(has(nodes, id, k, v));
                }
            }
        },
        NodeView::Internal { keys, children } => {
            let i = branch_of(keys, key);
            lemma_branch(nodes, id, lo, hi, start as int, depth, key);
            lemma_internal_is_family(nodes, id, lo, hi, start as int, depth);
            let below = fence_below(keys, lo, i);
            let above = fence_above(keys, hi, i);
            let less = (depth - 1) as nat;
            assert forall|k: Seq<u8>, v: Seq<u8>| #[trigger] has(nodes, children[i], k, v) implies k.len()
                <= RECORD_BUDGET by {
                assert(family_has(nodes, children, k, v));
                assert(has(nodes, id, k, v));
            }
            lemma_put_fits(nodes, children[i], key, value, start, below, above, less);
            lemma_put_in(nodes, children[i], key, value, start, below, above, less);
            let g = put_in(nodes, children[i], key, value, start, less);
            lemma_internal_with(nodes, id, lo, hi, depth, i, start, g, false);
            let whole = internal_with(keys, children, i, g);
            let at = changed_at(whole, i);
            assert(nodes.contains_key(id));
            lemma_internal_with_fits(keys, children, i, g);
            lemma_internal_cuts(g.nodes, whole, at, lo, hi, g.next as int, less);
            lemma_settled_pages(g.nodes, whole, at, g.next);
            lemma_pieces_fit(whole, at);
            assert forall|j: int| 0 <= j < keys_of(whole).len() implies (#[trigger] keys_of(whole)[j]).len()
                <= RECORD_BUDGET by {
                let m = g.seps.len() as int;
                if j < i {
                    lemma_separator_len(keys, children, j);
                    assert(keys_of(whole)[j] == keys[j]);
                } else if j < i + m {
                    assert(keys_of(whole)[j] == g.seps[j - i]);
                } else {
                    lemma_separator_len(keys, children, j - m);
                    assert(keys_of(whole)[j] == keys[j - m]);
                }
            }
        },
    }
}

/// Storing a pair within the budget keeps every node within a page, as long as
/// what is stored already is within the budget.
pub proof fn a_put_within_the_budget_fits(
    nodes: Nodes,
    root: Option<PageId>,
    key: Seq<u8>,
    value: Seq<u8>,
    start: PageId,
)
    requires
        is_store(nodes, root, start as int),
        start + 3 * path_len(nodes, root, key) + 3 <= u64::MAX,
        key.len() + value.len() <= RECORD_BUDGET,
        all_go_into_pages(nodes),
        within_budget(contents(nodes, root)),
    ensures
        all_go_into_pages(put_under(nodes, root, key, value, start).nodes),
{
    let r = put_under(nodes, root, key, value, start);
    match root {
        None => {
            let leaf = NodeView::Leaf { keys: seq![key], values: seq![value] };
            lemma_node_size(leaf);
            lemma_blobs_of_one(key);
            lemma_blobs_of_one(value);
            assert(seq![leaf][0] == leaf);
        },
        Some(id) => {
            let depth = depth_of(nodes, id);
            the_empty_key_comes_first(key);
            contents_are_the_pairs(nodes, root, start as int);
            assert forall|k: Seq<u8>, v: Seq<u8>| #[trigger] has(nodes, id, k, v) implies k.len() <= RECORD_BUDGET by {
                assert(holds_pair(nodes, root, k, v));
                assert(contents(nodes, root).contains_key(k));
            }
            lemma_put_fits(nodes, id, key, value, start, Seq::empty(), None, depth);
            lemma_put_in(nodes, id, key, value, start, Seq::empty(), None, depth);
            let g = put_in(nodes, id, key, value, start, depth);
            let root = NodeView::Internal { keys: g.seps, children: g.ids };
            if g.seps.len() > 0 {
                lemma_node_size(root);
                if g.seps.len() == 1 {
                    assert(g.seps =~= seq![g.seps[0]]);
                    lemma_blobs_of_one(g.seps[0]);
                    assert(goes_into_a_page(root));
                } else if !goes_into_a_page(root) {
                    let a = NodeView::Internal { keys: seq![g.seps[0]], children: seq![g.ids[0], g.ids[1]] };
                    let b = NodeView::Internal { keys: Seq::empty(), children: seq![g.ids[2]] };
                    let c = NodeView::Internal {
                        keys: seq![g.seps[1]],
                        children: seq![g.next, (g.next + 1) as PageId],
                    };
                    lemma_node_size(a);
                    lemma_node_size(b);
                    lemma_node_size(c);
                    lemma_blobs_of_one(g.seps[0]);
                    lemma_blobs_of_one(g.seps[1]);
                    assert(blobs(Seq::<Seq<u8>>::empty()).len() == 0);
                    let list = seq![a, b, c];
                    assert(goes_into_a_page(list[0]) && goes_into_a_page(list[1]) && goes_into_a_page(list[2]));
                    assert(r.nodes == placed(g.nodes, g.next, list));
                    assert forall|other: PageId| #[trigger] r.nodes.contains_key(other) implies goes_into_a_page(
                        r.nodes[other],
                    ) by {
                        if !(g.next <= other < g.next + 3) {
                            assert(g.nodes.contains_key(other));
                        }
                    }
                }
            }
        },
    }
}

// ---------------------------------------------------------------------------
// Removing a key
// ---------------------------------------------------------------------------

/// The leaf after what is stored under `key`, if anything, was removed.
pub open spec fn leaf_without(keys: Seq<Seq<u8>>, values: Seq<Seq<u8>>, key: Seq<u8>) -> NodeView {
    let i = place_of(keys, key);
    if i < keys.len() && keys[i] == key {
        NodeView::Leaf { keys: keys.remove(i), values: values.remove(i) }
    } else {
        NodeView::Leaf { keys, values }
    }
}

/// What comes of the subtree at `id`, no more than `depth` deep, when `key` is
/// removed: every node on the way from the leaf up is stored anew, on pages from
/// `start` on. Separators stay as they are, and no leaf goes away.
pub open spec fn delete_in(nodes: Nodes, id: PageId, key: Seq<u8>, start: PageId, depth: nat) -> Grown
    decreases depth,
{
    match nodes[id] {
        NodeView::Leaf { keys, values } => Grown {
            nodes: placed(nodes, start, seq![leaf_without(keys, values, key)]),
            ids: seq![start],
            seps: Seq::empty(),
            next: (start + 1) as PageId,
        },
        NodeView::Internal { keys, children } => {
            let i = branch_of(keys, key);
            if depth > 0 {
                let g = delete_in(nodes, children[i], key, start, (depth - 1) as nat);
                let node = NodeView::Internal { keys, children: children.update(i, g.ids[0]) };
                Grown {
                    nodes: placed(g.nodes, g.next, seq![node]),
                    ids: seq![g.next],
                    seps: Seq::empty(),
                    next: (g.next + 1) as PageId,
                }
            } else {
                Grown { nodes, ids: seq![id], seps: Seq::empty(), next: start }
            }
        },
    }
}

/// What comes of a store when `key` is removed. The new root is the only id;
/// there is none where nothing is left.
pub open spec fn delete_under(nodes: Nodes, root: Option<PageId>, key: Seq<u8>, start: PageId) -> Grown {
    match root {
        None => Grown { nodes, ids: Seq::empty(), seps: Seq::empty(), next: start },
        Some(id) => {
            let g = delete_in(nodes, id, key, start, depth_of(nodes, id));
            if contents(nodes, root).remove(key).is_empty() {
                Grown { ids: Seq::empty(), ..g }
            } else {
                g
            }
        },
    }
}

/// A leaf without a key holds the rest.
pub proof fn lemma_leaf_without(
    keys: Seq<Seq<u8>>,
    values: Seq<Seq<u8>>,
    lo: Seq<u8>,
    hi: Option<Seq<u8>>,
    key: Seq<u8>,
)
    requires
        sized(NodeView::Leaf { keys, values }),
        leaf_in_order(keys, lo, hi),
    ensures
        sized(leaf_without(keys, values, key)),
        leaf_in_order(leaf_without(keys, values, key)->Leaf_keys, lo, hi),
        node_size(leaf_without(keys, values, key)) <= node_size(NodeView::Leaf { keys, values }),
        forall|k: Seq<u8>, v: Seq<u8>| #[trigger]
            leaf_has(leaf_without(keys, values, key)->Leaf_keys, leaf_without(keys, values, key)->values, k, v)
                <==> k != key && leaf_has(keys, values, k, v),
        (exists|v: Seq<u8>| leaf_has(keys, values, key, v)) <==> place_of(keys, key) < keys.len() && keys[place_of(
            keys,
            key,
        )] == key,
{
    let i = place_of(keys, key);
    every_key_has_a_place(keys, key);
    if i < keys.len() && keys[i] == key {
        lemma_leaf_delete(keys, values, lo, hi, i);
        lemma_blobs_removed(keys, i);
        lemma_blobs_removed(values, i);
        lemma_node_size(NodeView::Leaf { keys, values });
        lemma_node_size(leaf_without(keys, values, key));
        assert(leaf_has(keys, values, key, values[i]));
        let ks = keys.remove(i);
        let vs = values.remove(i);
        assert forall|j: int| 0 <= j < ks.len() implies entry_fits(#[trigger] ks[j], #[trigger] vs[j]) by {
            if j < i {
                assert(entry_fits(keys[j], values[j]));
            } else {
                assert(entry_fits(keys[j + 1], values[j + 1]));
            }
        }
    } else {
        assert forall|v: Seq<u8>| !leaf_has(keys, values, key, v) by {
            if leaf_has(keys, values, key, v) {
                let j = choose|j: int| 0 <= j < keys.len() && #[trigger] keys[j] == key && values[j] == v;
                key_order_is_strict(key, key);
                assert(j >= i);
                if j > i {
                    assert(key_lt(keys[i], keys[j]));
                }
            }
        }
    }
}

/// Removing a key from the one child that it belongs to removes it from the
/// whole family.
proof fn lemma_delete_in_family(
    before: Nodes,
    middle: Nodes,
    id: PageId,
    children: Seq<PageId>,
    i: int,
    child: PageId,
    key: Seq<u8>,
    k: Seq<u8>,
    v: Seq<u8>,
)
    requires
        0 <= i < children.len(),
        has(before, id, k, v) <==> family_has(before, children, k, v),
        forall|j: int|
            0 <= j < children.len() ==> (#[trigger] has(middle, children[j], k, v) <==> has(before, children[j], k, v)),
        forall|j: int| 0 <= j < children.len() && j != i ==> !#[trigger] has(before, children[j], key, v),
        has(middle, child, k, v) <==> after_delete(before, children[i], key, k, v),
    ensures
        has(middle, child, k, v) || (exists|j: int|
            0 <= j < children.len() && j != i && has(middle, #[trigger] children[j], k, v)) <==> after_delete(
            before,
            id,
            key,
            k,
            v,
        ),
{
    if exists|j: int| 0 <= j < children.len() && j != i && has(middle, #[trigger] children[j], k, v) {
        let j = choose|j: int| 0 <= j < children.len() && j != i && has(middle, #[trigger] children[j], k, v);
        assert(has(before, children[j], k, v));
    }
    if k != key && has(before, id, k, v) {
        let j = choose|j: int| 0 <= j < children.len() && has(before, #[trigger] children[j], k, v);
        assert(has(middle, children[j], k, v));
    }
    if k != key && has(before, children[i], k, v) {
        assert(family_has(before, children, k, v));
    }
}

/// What comes of a subtree without a key is a tree as deep as it was, which
/// holds what it held under other keys. It takes one page for each node on the
/// way.
#[verifier::rlimit(40)]
pub proof fn lemma_delete_in(
    nodes: Nodes,
    id: PageId,
    key: Seq<u8>,
    start: PageId,
    lo: Seq<u8>,
    hi: Option<Seq<u8>>,
    depth: nat,
)
    requires
        is_tree(nodes, id, lo, hi, start as int, depth),
        within(key, lo, hi),
        start + steps(nodes, id, key, depth) <= u64::MAX,
    ensures
        ({
            let r = delete_in(nodes, id, key, start, depth);
            &&& r.ids.len() == 1
            &&& r.next == start + steps(nodes, id, key, depth)
            &&& start < r.next
            &&& r.ids[0] == r.next - 1
            &&& is_tree(r.nodes, r.ids[0], lo, hi, r.next as int, depth)
            &&& is_level(nodes, id, depth) ==> is_level(r.nodes, r.ids[0], depth)
            &&& extends(nodes, r.nodes, start, r.next)
            &&& all_sized(r.nodes, start, r.next)
            &&& none_larger(nodes, r.nodes, start, r.next)
            &&& forall|k: Seq<u8>, v: Seq<u8>| #[trigger]
                has(r.nodes, r.ids[0], k, v) <==> after_delete(nodes, id, key, k, v)
        }),
    decreases depth,
{
    let r = delete_in(nodes, id, key, start, depth);
    match nodes[id] {
        NodeView::Leaf { keys, values } => {
            let leaf = leaf_without(keys, values, key);
            lemma_leaf_without(keys, values, lo, hi, key);
            assert(seq![leaf][0] == leaf);
            assert(r.nodes[start] == leaf);
            assert(is_tree(r.nodes, start, lo, hi, r.next as int, depth));
            lemma_leaf_holds(nodes, id, keys, values);
            lemma_leaf_holds(r.nodes, start, leaf->Leaf_keys, leaf->values);
            assert forall|k: Seq<u8>, v: Seq<u8>| #[trigger] has(r.nodes, start, k, v) <==> after_delete(
                nodes,
                id,
                key,
                k,
                v,
            ) by {
                assert(has(nodes, id, k, v) <==> leaf_has(keys, values, k, v));
            }
            assert(nodes.contains_key(id) && node_size(r.nodes[start]) <= node_size(nodes[id]));
        },
        NodeView::Internal { keys, children } => {
            let i = branch_of(keys, key);
            lemma_branch(nodes, id, lo, hi, start as int, depth, key);
            let even = is_level(nodes, id, depth);
            let below = fence_below(keys, lo, i);
            let above = fence_above(keys, hi, i);
            let less = (depth - 1) as nat;
            lemma_delete_in(nodes, children[i], key, start, below, above, less);
            let g = delete_in(nodes, children[i], key, start, less);
            let child = g.ids[0];
            let after = children.update(i, child);
            let node = NodeView::Internal { keys, children: after };
            let new_id = g.next;
            assert(seq![node][0] == node);
            assert(r.nodes[new_id] == node);
            lemma_internal_is_family(nodes, id, lo, hi, start as int, depth);
            lemma_family_kept(nodes, g.nodes, keys, children, lo, hi, start as int, less);
            lemma_family_widened(g.nodes, keys, children, lo, hi, start as int, g.next as int, less);
            lemma_family_replaced(g.nodes, keys, children, lo, hi, g.next as int, less, i, child);
            if even {
                assert forall|j: int| 0 <= j < after.len() implies is_level(g.nodes, #[trigger] after[j], less) by {
                    if j != i {
                        assert(after[j] == children[j]);
                        lemma_child_level(nodes, g.nodes, id, lo, hi, start as int, depth, j);
                    }
                }
            }
            lemma_part_makes_tree(
                g.nodes,
                r.nodes,
                new_id,
                keys,
                after,
                lo,
                hi,
                g.next as int,
                r.next as int,
                less,
                even,
            );
            lemma_extends_chain(nodes, g.nodes, r.nodes, start, g.next, r.next);
            lemma_descent(nodes, id, lo, hi, start as int, depth, key, i);
            assert forall|k: Seq<u8>, v: Seq<u8>| #[trigger] has(r.nodes, new_id, k, v) <==> after_delete(
                nodes,
                id,
                key,
                k,
                v,
            ) by {
                lemma_delete_in_family(nodes, g.nodes, id, children, i, child, key, k, v);
            }
            assert forall|other: PageId| start <= other < r.next implies sized(#[trigger] r.nodes[other])
                && is_no_larger(nodes, r.nodes[other]) by {
                if other < g.next {
                    assert(g.nodes.contains_key(other));
                    assert(sized(g.nodes[other]) && is_no_larger(nodes, g.nodes[other]));
                    assert(r.nodes[other] == g.nodes[other]);
                } else {
                    lemma_node_size(nodes[id]);
                    lemma_node_size(node);
                    assert(nodes.contains_key(id) && node_size(r.nodes[other]) <= node_size(nodes[id]));
                }
            }
        },
    }
}

/// Removing a key makes a store that holds what was stored under other keys,
/// and no root at all where nothing is left. It leaves the old store as it was
/// and takes one page for each node on the way.
pub proof fn a_delete_removes_the_key(nodes: Nodes, root: Option<PageId>, key: Seq<u8>, start: PageId)
    requires
        is_store(nodes, root, start as int),
        start + path_len(nodes, root, key) <= u64::MAX,
    ensures
        ({
            let g = delete_under(nodes, root, key, start);
            let new_root = if g.ids.len() == 0 {
                None
            } else {
                Some(g.ids[0])
            };
            &&& g.ids.len() == 0 <==> contents(nodes, root).remove(key).is_empty()
            &&& g.ids.len() <= 1
            &&& g.next == start + path_len(nodes, root, key)
            &&& new_root matches Some(id) ==> start <= id < g.next
            &&& is_store(g.nodes, new_root, g.next as int)
            &&& contents(g.nodes, new_root) == contents(nodes, root).remove(key)
            &&& height(g.nodes, new_root) <= height(nodes, root)
            &&& is_even(nodes, root) ==> is_even(g.nodes, new_root)
            &&& extends(nodes, g.nodes, start, g.next)
            &&& all_sized(g.nodes, start, g.next)
            &&& none_larger(nodes, g.nodes, start, g.next)
            &&& is_store(g.nodes, root, start as int)
            &&& contents(g.nodes, root) == contents(nodes, root)
        }),
{
    let left = contents(nodes, root).remove(key);
    contents_are_the_pairs(nodes, root, start as int);
    let g = delete_under(nodes, root, key, start);
    match root {
        None => {
            assert forall|k: Seq<u8>| !contents(nodes, root).contains_key(k) by {
                if contents(nodes, root).contains_key(k) {
                    assert(holds_pair(nodes, root, k, contents(nodes, root)[k]));
                }
            }
            assert(left =~= contents(nodes, root));
            assert(left =~= Map::empty());
        },
        Some(id) => {
            let depth = depth_of(nodes, id);
            the_empty_key_comes_first(key);
            lemma_delete_in(nodes, id, key, start, Seq::empty(), None, depth);
            let r = delete_in(nodes, id, key, start, depth);
            let new_id = r.ids[0];
            lemma_new_root(r.nodes, new_id, r.next as int, depth, is_level(nodes, id, depth));
            assert forall|k: Seq<u8>, v: Seq<u8>| #[trigger] holds_pair(r.nodes, Some(new_id), k, v)
                <==> left.contains_key(k) && left[k] == v by {
                assert(has(r.nodes, new_id, k, v) <==> after_delete(nodes, id, key, k, v));
                assert(holds_pair(nodes, root, k, v) <==> has(nodes, id, k, v));
            }
            lemma_same_pairs(r.nodes, Some(new_id), r.next as int, left);
            if left.is_empty() {
                assert forall|k: Seq<u8>, v: Seq<u8>| #[trigger] holds_pair(r.nodes, None, k, v) <==> left.contains_key(
                    k,
                ) && left[k] == v by {
                    assert(!left.contains_key(k));
                }
                lemma_same_pairs(r.nodes, None, r.next as int, left);
            }
        },
    }
    contents_are_kept(nodes, g.nodes, root, start as int);
}

} // verus!
