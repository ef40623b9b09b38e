//! Whether a file is that of a store. Opening a file looks at its meta pages
//! alone; this looks at everything that the latest commit refers to.

use vstd::prelude::*;

use super::btree::{bound_of, stored_nodes, Node, NodeView};
use super::chain::comes_to_an_end;
use super::codec::decode_page;
use super::freelist::FreeListPage;
use super::keys::{
    ascending, compare_keys, contents_of, key_le, key_lt, key_order_is_transitive, nondescending, KeyOrder,
};
use super::pager::{PageId, Pager, META_PAGE_COUNT};
use super::store::is_store_file;
use super::tree::{
    a_tree_is_less_deep_than_it_has_pages, depth_of, entry_fits, fence_above, fence_below, is_store, is_tree,
    leaf_in_order, lemma_tree_at, lemma_tree_depth, lemma_tree_ids, separates, separators_in_order, sized, within,
    MAX_ENTRY, MAX_KEYS,
};

verus! {

/// Whether `a` comes before `b`.
fn is_before(a: &[u8], b: &[u8]) -> (r: bool)
    ensures
        r == key_lt(a@, b@),
{
    match compare_keys(a, b) {
        KeyOrder::Less => true,
        _ => false,
    }
}

/// Whether a leaf's keys are in order, between the bounds, and short enough.
fn leaf_is_sound(keys: &Vec<Vec<u8>>, values: &Vec<Vec<u8>>, lo: &[u8], hi: Option<&[u8]>) -> (r: bool)
    ensures
        r <==> sized(NodeView::Leaf { keys: contents_of(keys@), values: contents_of(values@) }) && leaf_in_order(
            contents_of(keys@),
            lo@,
            bound_of(hi),
        ),
{
    if keys.len() != values.len() || keys.len() > MAX_KEYS {
        return false;
    }
    let ghost ks = contents_of(keys@);
    let ghost vs = contents_of(values@);
    let mut i: usize = 0;
    while i < keys.len()
        invariant
            i <= keys@.len() == values@.len() <= MAX_KEYS,
            ks == contents_of(keys@),
            vs == contents_of(values@),
            ascending(ks.take(i as int)),
            forall|j: int| 0 <= j < i ==> within(#[trigger] ks[j], lo@, bound_of(hi)),
            forall|j: int| 0 <= j < i ==> entry_fits(#[trigger] ks[j], #[trigger] vs[j]),
        decreases keys@.len() - i,
    {
        let key = keys[i].as_slice();
        assert(ks[i as int] == key@);
        assert(vs[i as int] == values@[i as int]@);
        if key.len() > MAX_ENTRY || values[i].len() > MAX_ENTRY - key.len() {
            assert(!entry_fits(ks[i as int], vs[i as int]));
            return false;
        }
        if is_before(key, lo) {
            assert(!within(ks[i as int], lo@, bound_of(hi)));
            return false;
        }
        if let Some(h) = hi {
            if !is_before(key, h) {
                assert(!within(ks[i as int], lo@, bound_of(hi)));
                return false;
            }
        }
        if i > 0 && !is_before(keys[i - 1].as_slice(), key) {
            assert(ks[i - 1] == keys@[i - 1]@);
            assert(!key_lt(ks[i - 1], ks[i as int]));
            return false;
        }
        proof {
            let more = ks.take(i + 1);
            assert forall|a: int, b: int| 0 <= a < b < more.len() implies key_lt(#[trigger] more[a], #[trigger] more[b]) by {
                if b < i {
                    assert(ks.take(i as int)[a] == more[a] && ks.take(i as int)[b] == more[b]);
                } else {
                    assert(ks[i - 1] == keys@[i - 1]@);
                    if a < i - 1 {
                        assert(key_lt(ks.take(i as int)[a], ks.take(i as int)[i - 1]));
                        key_order_is_transitive(ks[a], ks[i - 1], ks[i as int]);
                    }
                }
            }
        }
        i += 1;
    }
    assert(ks.take(i as int) =~= ks);
    true
}

/// Whether an internal node's separators are in order, between the bounds, and
/// short enough.
fn separators_are_sound(keys: &Vec<Vec<u8>>, children: &Vec<PageId>, lo: &[u8], hi: Option<&[u8]>) -> (r: bool)
    ensures
        r <==> sized(NodeView::Internal { keys: contents_of(keys@), children: children@ }) && separators_in_order(
            contents_of(keys@),
            lo@,
            bound_of(hi),
        ),
{
    if keys.len() > MAX_KEYS || keys.len() + 1 != children.len() {
        return false;
    }
    let ghost ks = contents_of(keys@);
    let mut i: usize = 0;
    while i < keys.len()
        invariant
            i <= keys@.len() <= MAX_KEYS,
            ks == contents_of(keys@),
            nondescending(ks.take(i as int)),
            forall|j: int| 0 <= j < i ==> separates(#[trigger] ks[j], lo@, bound_of(hi)),
            forall|j: int| 0 <= j < i ==> (#[trigger] ks[j]).len() <= MAX_ENTRY,
        decreases keys@.len() - i,
    {
        let key = keys[i].as_slice();
        assert(ks[i as int] == key@);
        if key.len() > MAX_ENTRY {
            assert(ks[i as int].len() > MAX_ENTRY);
            return false;
        }
        if is_before(key, lo) {
            assert(!separates(ks[i as int], lo@, bound_of(hi)));
            return false;
        }
        if let Some(h) = hi {
            if is_before(h, key) {
                assert(!separates(ks[i as int], lo@, bound_of(hi)));
                return false;
            }
        }
        if i > 0 && is_before(key, keys[i - 1].as_slice()) {
            assert(ks[i - 1] == keys@[i - 1]@);
            assert(!key_le(ks[i - 1], ks[i as int]));
            return false;
        }
        proof {
            let more = ks.take(i + 1);
            assert forall|a: int, b: int| 0 <= a < b < more.len() implies key_le(#[trigger] more[a], #[trigger] more[b]) by {
                if b < i {
                    assert(ks.take(i as int)[a] == more[a] && ks.take(i as int)[b] == more[b]);
                } else {
                    assert(ks[i - 1] == keys@[i - 1]@);
                    if a < i - 1 {
                        assert(key_le(ks.take(i as int)[a], ks.take(i as int)[i - 1]));
                        key_order_is_transitive(ks[a], ks[i - 1], ks[i as int]);
                    }
                }
            }
        }
        i += 1;
    }
    assert(ks.take(i as int) =~= ks);
    true
}

/// Whether a search tree no more than `depth` deep begins at page `id`, with keys
/// between `lo` and `hi`, on pages before `limit`.
fn tree_is_sound(pager: &Pager, id: PageId, lo: &[u8], hi: Option<&[u8]>, limit: u64, depth: u64) -> (r: bool)
    ensures
        r == is_tree(stored_nodes(pager.file()), id, lo@, bound_of(hi), limit as int, depth as nat),
    decreases depth,
{
    let ghost nodes = stored_nodes(pager.file());
    if id < META_PAGE_COUNT || id >= limit {
        return false;
    }
    let node: Node = match pager.read_page(id) {
        Ok(page) => match decode_page(&page) {
            Some(node) => node,
            None => {
                return false;
            },
        },
        Err(_) => {
            return false;
        },
    };
    assert(nodes.contains_key(id) && nodes[id] == node@);
    match node {
        Node::Leaf { keys, values } => leaf_is_sound(&keys, &values, lo, hi),
        Node::Internal { keys, children } => {
            if depth == 0 || !separators_are_sound(&keys, &children, lo, hi) {
                return false;
            }
            let ghost ks = contents_of(keys@);
            let mut i: usize = 0;
            while i < children.len()
                invariant
                    i <= children@.len() == keys@.len() + 1,
                    depth > 0,
                    nodes == stored_nodes(pager.file()),
                    ks == contents_of(keys@),
                    nodes.contains_key(id),
                    nodes[id] == (NodeView::Internal { keys: ks, children: children@ }),
                    forall|j: int|
                        #![trigger children@[j]]
                        0 <= j < i ==> is_tree(
                            nodes,
                            children@[j],
                            fence_below(ks, lo@, j),
                            fence_above(ks, bound_of(hi), j),
                            limit as int,
                            (depth - 1) as nat,
                        ),
                decreases children@.len() - i,
            {
                let child: PageId = children[i];
                let below: &[u8] = if i == 0 {
                    lo
                } else {
                    keys[i - 1].as_slice()
                };
                let above: Option<&[u8]> = if i == keys.len() {
                    hi
                } else {
                    Some(keys[i].as_slice())
                };
                assert(below@ == fence_below(ks, lo@, i as int));
                assert(bound_of(above) == fence_above(ks, bound_of(hi), i as int));
                if !tree_is_sound(pager, child, below, above, limit, depth - 1) {
                    assert(!is_tree(
                        nodes,
                        children@[i as int],
                        fence_below(ks, lo@, i as int),
                        fence_above(ks, bound_of(hi), i as int),
                        limit as int,
                        (depth - 1) as nat,
                    ));
                    return false;
                }
                i += 1;
            }
            true
        },
    }
}

/// Whether a file is that of a store.
pub fn is_sound(image: &Vec<u8>) -> (r: bool)
    ensures
        r == is_store_file(image@),
{
    let copy = vstd::slice::slice_to_vec(image.as_slice());
    assert(copy@ =~= image@);
    let (pager, meta) = match Pager::open(Some(copy)) {
        Ok(opened) => opened,
        Err(_) => {
            return false;
        },
    };
    if meta.next_page < META_PAGE_COUNT {
        return false;
    }
    if let Some(id) = meta.root {
        let nothing: Vec<u8> = Vec::new();
        assert(nothing@ =~= Seq::<u8>::empty());
        let ghost nodes = stored_nodes(pager.file());
        let pages = pager.pages();
        let sound = tree_is_sound(&pager, id, nothing.as_slice(), None, meta.next_page, pages);
        proof {
            let limit = meta.next_page as int;
            let depth = depth_of(nodes, id);
            if is_store(nodes, meta.root, limit) {
                lemma_tree_depth(nodes, id, Seq::empty(), None, limit, depth);
                lemma_tree_ids(nodes, id, Seq::empty(), None, limit, depth, pages as int);
                a_tree_is_less_deep_than_it_has_pages(nodes, id, Seq::empty(), None, pages as int, depth);
                lemma_tree_at(nodes, id, Seq::empty(), None, limit, depth, limit, pages as nat);
            }
            if sound {
                lemma_tree_depth(nodes, id, Seq::empty(), None, limit, pages as nat);
            }
        }
        if !sound {
            return false;
        }
    }
    comes_to_an_end::<FreeListPage>(&pager, meta.free_list_head, META_PAGE_COUNT, meta.next_page)
}

} // verus!
