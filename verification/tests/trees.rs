//! The copy-on-write tree, without transactions around it.

use std::collections::HashMap;

use cics_tx::storage::btree::{delete, get, put, range, Node, Overlay, SPLIT_THRESHOLD};
use cics_tx::storage::codec::encoded_len;
use cics_tx::storage::growth::RECORD_BUDGET;
use cics_tx::storage::keys::{child_index, compare_keys, find_key, KeyOrder};
use cics_tx::storage::pager::{Pager, PAGE_SIZE};
use cics_tx::storage::PageId;

struct Tree {
    pager: Pager,
    overlay: Overlay,
    next_page: PageId,
    root: Option<PageId>,
}

impl Tree {
    fn new() -> Tree {
        let (pager, meta) = Pager::open(None).unwrap();
        Tree { pager, overlay: HashMap::new(), next_page: meta.next_page, root: meta.root }
    }

    fn put(&mut self, key: &[u8], value: &[u8]) {
        self.root = Some(put(&self.pager, &mut self.overlay, &mut self.next_page, self.root, key, value));
    }

    fn delete(&mut self, key: &[u8]) -> bool {
        let (root, removed) = delete(&self.pager, &mut self.overlay, &mut self.next_page, self.root, key);
        self.root = root;
        removed
    }

    fn get_at(&self, root: Option<PageId>, key: &[u8]) -> Option<Vec<u8>> {
        get(&self.pager, &self.overlay, root, key)
    }

    fn get(&self, key: &[u8]) -> Option<Vec<u8>> {
        self.get_at(self.root, key)
    }

    fn keys(&self, start: Option<&[u8]>, end: Option<&[u8]>) -> Vec<Vec<u8>> {
        range(&self.pager, &self.overlay, self.root, start, end).into_iter().map(|row| row.0).collect()
    }

    /// Drops the nodes that the root does not lead to.
    fn forget_unreachable(&mut self) {
        let mut seen = Vec::new();
        let mut todo: Vec<PageId> = self.root.into_iter().collect();
        while let Some(id) = todo.pop() {
            seen.push(id);
            if let Node::Internal { children, .. } = &self.overlay[&id] {
                todo.extend(children);
            }
        }
        self.overlay.retain(|id, _| seen.contains(id));
    }

    fn root_node(&self) -> &Node {
        &self.overlay[&self.root.unwrap()]
    }
}

#[test]
fn keys_compare_byte_by_byte() {
    assert!(matches!(compare_keys(b"a", b"b"), KeyOrder::Less));
    assert!(matches!(compare_keys(b"a", b"ab"), KeyOrder::Less));
    assert!(matches!(compare_keys(b"ab", b"ab"), KeyOrder::Equal));
    assert!(matches!(compare_keys(b"b", b"ab"), KeyOrder::Greater));
    assert!(matches!(compare_keys(b"", b""), KeyOrder::Equal));
    assert!(matches!(compare_keys(&[0x80], &[0x7f, 0xff]), KeyOrder::Greater));
}

#[test]
fn a_key_is_found_or_its_place() {
    let keys = vec![b"b".to_vec(), b"d".to_vec(), b"f".to_vec()];
    assert_eq!(find_key(&keys, b"d"), Ok(1));
    assert_eq!(find_key(&keys, b"a"), Err(0));
    assert_eq!(find_key(&keys, b"e"), Err(2));
    assert_eq!(find_key(&keys, b"g"), Err(3));
}

#[test]
fn a_separator_belongs_to_the_child_on_its_right() {
    let keys = vec![b"b".to_vec(), b"d".to_vec()];
    assert_eq!(child_index(&keys, b"a"), 0);
    assert_eq!(child_index(&keys, b"b"), 1);
    assert_eq!(child_index(&keys, b"c"), 1);
    assert_eq!(child_index(&keys, b"d"), 2);
    assert_eq!(child_index(&keys, b"z"), 2);
}

#[test]
fn the_first_key_makes_a_leaf_on_the_next_page() {
    let mut tree = Tree::new();
    assert_eq!(tree.get(b"k"), None);
    tree.put(b"k", b"v");
    assert_eq!(tree.root, Some(2));
    assert_eq!(tree.next_page, 3);
    assert_eq!(tree.get(b"k"), Some(b"v".to_vec()));
}

#[test]
fn a_change_copies_and_leaves_the_old_tree() {
    let mut tree = Tree::new();
    tree.put(b"k", b"old");
    let before = tree.root;
    tree.put(b"k", b"new");
    assert_eq!(tree.root, Some(3));
    assert_eq!(tree.get(b"k"), Some(b"new".to_vec()));
    assert_eq!(tree.get_at(before, b"k"), Some(b"old".to_vec()));
    assert!(tree.delete(b"k"));
    assert_eq!(tree.get_at(before, b"k"), Some(b"old".to_vec()));
}

#[test]
fn the_last_delete_leaves_no_root() {
    let mut tree = Tree::new();
    assert!(!tree.delete(b"k"));
    assert_eq!((tree.root, tree.next_page), (None, 2));
    tree.put(b"k", b"v");
    assert!(tree.delete(b"k"));
    assert_eq!(tree.root, None);
    assert_eq!(tree.next_page, 4);
    assert_eq!(tree.get(b"k"), None);
}

#[test]
fn deleting_what_is_not_there_still_copies() {
    let mut tree = Tree::new();
    tree.put(b"k", b"v");
    assert!(!tree.delete(b"other"));
    assert_eq!(tree.root, Some(3));
    assert_eq!(tree.get(b"k"), Some(b"v".to_vec()));
}

#[test]
fn a_leaf_that_outgrows_the_threshold_is_split_in_the_middle() {
    let mut tree = Tree::new();
    tree.put(b"a", &[1u8; 1000]);
    tree.put(b"b", &[2u8; 1000]);
    assert!(encoded_len(tree.root_node()) <= SPLIT_THRESHOLD);
    tree.put(b"c", &[3u8; 1000]);
    match tree.root_node() {
        Node::Internal { keys, children } => {
            assert_eq!(keys, &vec![b"b".to_vec()]);
            assert_eq!(children.len(), 2);
            match &tree.overlay[&children[0]] {
                Node::Leaf { keys, .. } => assert_eq!(keys, &vec![b"a".to_vec()]),
                other => panic!("{other:?}"),
            }
            match &tree.overlay[&children[1]] {
                Node::Leaf { keys, .. } => assert_eq!(keys, &vec![b"b".to_vec(), b"c".to_vec()]),
                other => panic!("{other:?}"),
            }
        }
        other => panic!("{other:?}"),
    }
    assert_eq!(tree.get(b"a"), Some(vec![1u8; 1000]));
    assert_eq!(tree.get(b"c"), Some(vec![3u8; 1000]));
}

#[test]
fn a_tree_that_nothing_is_left_in_has_no_root() {
    let mut tree = Tree::new();
    for key in [b"a", b"b", b"c"] {
        tree.put(key, &[1u8; 1000]);
    }
    assert!(matches!(tree.root_node(), Node::Internal { .. }));
    assert!(tree.delete(b"b"));
    assert!(tree.delete(b"a"));
    assert!(tree.root.is_some());
    assert!(tree.delete(b"c"));
    assert!(tree.root.is_none());
    assert!(tree.keys(None, None).is_empty());
    tree.put(b"b", b"again");
    assert_eq!(tree.get(b"b"), Some(b"again".to_vec()));
}

fn leaf_of(keys: &[&[u8]], value: &[u8]) -> Node {
    Node::Leaf { keys: keys.iter().map(|k| k.to_vec()).collect(), values: keys.iter().map(|_| value.to_vec()).collect() }
}

#[test]
fn a_put_goes_by_the_tree_and_not_by_the_page_ids() {
    let key = |c: u8| vec![c; 1100];
    let mut tree = Tree::new();
    tree.overlay.insert(2, Node::Internal { keys: vec![key(b'b'), key(b'd')], children: vec![3, 4, 5] });
    tree.overlay.insert(3, leaf_of(&[], b""));
    tree.overlay.insert(4, leaf_of(&[], b""));
    tree.overlay.insert(5, leaf_of(&[&key(b'd'), &key(b'e')], b""));
    tree.root = Some(2);
    tree.next_page = 6;
    assert_eq!(tree.get(&key(b'e')), Some(Vec::new()));
    tree.put(&key(b'f'), b"");
    assert_eq!((tree.root, tree.next_page), (Some(10), 11));
    assert_eq!(leaf_keys(&tree.overlay[&6]), vec![key(b'd')]);
    assert_eq!(leaf_keys(&tree.overlay[&7]), vec![key(b'e'), key(b'f')]);
    assert_eq!(internal(&tree.overlay[&8]), (vec![key(b'b')], vec![3, 4]));
    assert_eq!(internal(&tree.overlay[&9]), (vec![key(b'e')], vec![6, 7]));
    assert_eq!(internal(tree.root_node()), (vec![key(b'd')], vec![8, 9]));
    assert_eq!(tree.keys(None, None), vec![key(b'd'), key(b'e'), key(b'f')]);
    assert_eq!(tree.get_at(Some(2), &key(b'f')), None);
    assert_eq!(tree.get_at(Some(2), &key(b'd')), Some(Vec::new()));
}

#[test]
fn a_delete_goes_by_the_tree_and_not_by_the_page_ids() {
    let mut tree = Tree::new();
    tree.overlay.insert(2, Node::Internal { keys: vec![b"b".to_vec()], children: vec![3, 4] });
    tree.overlay.insert(3, leaf_of(&[], b""));
    tree.overlay.insert(4, leaf_of(&[b"b"], b"1"));
    tree.root = Some(2);
    tree.next_page = 5;
    assert!(tree.delete(b"b"));
    assert_eq!((tree.root, tree.next_page), (None, 7));
    assert_eq!(tree.get_at(Some(2), b"b"), Some(b"1".to_vec()));
}

#[test]
fn a_delete_keeps_separators_and_other_leaves() {
    let mut tree = Tree::new();
    for key in [b"a", b"b", b"c"] {
        tree.put(key, &[1u8; 1000]);
    }
    let (seps, kids) = internal(tree.root_node());
    let next = tree.next_page;
    assert!(tree.delete(b"a"));
    // The leaf and the root were copied, and nothing else.
    assert_eq!(tree.next_page, next + 2);
    assert_eq!(tree.root, Some(next + 1));
    assert_eq!(internal(tree.root_node()), (seps, vec![next, kids[1]]));
    assert_eq!(leaf_keys(&tree.overlay[&next]), Vec::<Vec<u8>>::new());
    assert!(!tree.delete(b"a"));
    assert_eq!(tree.next_page, next + 4);
}

fn internal(node: &Node) -> (Vec<Vec<u8>>, Vec<PageId>) {
    match node {
        Node::Internal { keys, children } => (keys.clone(), children.clone()),
        other => panic!("{other:?}"),
    }
}

fn leaf_keys(node: &Node) -> Vec<Vec<u8>> {
    match node {
        Node::Leaf { keys, .. } => keys.clone(),
        other => panic!("{other:?}"),
    }
}

fn depth(tree: &Tree, id: PageId) -> usize {
    match &tree.overlay[&id] {
        Node::Leaf { .. } => 0,
        Node::Internal { children, .. } => {
            let depths: Vec<usize> = children.iter().map(|child| depth(tree, *child)).collect();
            assert!(depths.iter().all(|d| *d == depths[0]), "{depths:?}");
            depths[0] + 1
        }
    }
}

#[test]
fn a_half_that_no_page_holds_is_not_cut_off() {
    let mut tree = Tree::new();
    tree.put(b"a", &[1u8; 1400]);
    tree.put(b"b", &[2u8; 1400]);
    tree.put(b"c", &[3u8; 2900]);
    // With one key on the left, the right half would take 4358 bytes.
    assert_eq!(internal(tree.root_node()), (vec![b"c".to_vec()], vec![4, 5]));
    assert_eq!(leaf_keys(&tree.overlay[&4]), vec![b"a".to_vec(), b"b".to_vec()]);
    assert_eq!(leaf_keys(&tree.overlay[&5]), vec![b"c".to_vec()]);
    for node in tree.overlay.values() {
        assert!(encoded_len(node) <= PAGE_SIZE);
    }
}

#[test]
fn a_leaf_is_cut_in_three_where_two_parts_do_not_fit() {
    let mut tree = Tree::new();
    tree.put(b"a", &[1u8; 1400]);
    tree.put(b"c", &[3u8; 1400]);
    tree.put(b"b", &[2u8; 3900]);
    assert_eq!(tree.root, Some(7));
    assert_eq!(internal(tree.root_node()), (vec![b"b".to_vec(), b"c".to_vec()], vec![4, 5, 6]));
    for (id, key) in [(4, b"a"), (5, b"b"), (6, b"c")] {
        assert_eq!(leaf_keys(&tree.overlay[&id]), vec![key.to_vec()]);
    }
    assert_eq!(tree.get(b"b"), Some(vec![2u8; 3900]));
    assert_eq!(tree.keys(None, None), vec![b"a", b"b", b"c"]);
}

#[test]
fn three_parts_with_long_separators_get_two_nodes_above_them() {
    let mut tree = Tree::new();
    let b = vec![b'b'; 2100];
    let c = vec![b'c'; 2000];
    tree.put(b"a", &[1u8; 900]);
    tree.put(&c, b"");
    tree.put(&b, &[2u8; 1900]);
    assert_eq!(tree.root, Some(9));
    assert_eq!(internal(tree.root_node()), (vec![c.clone()], vec![7, 8]));
    assert_eq!(internal(&tree.overlay[&7]), (vec![b.clone()], vec![4, 5]));
    assert_eq!(internal(&tree.overlay[&8]), (vec![], vec![6]));
    assert_eq!(tree.keys(None, None), vec![b"a".to_vec(), b.clone(), c.clone()]);
    for node in tree.overlay.values() {
        assert!(encoded_len(node) <= PAGE_SIZE);
    }
    assert_eq!(depth(&tree, 9), 2);
}

#[test]
fn an_insert_can_split_two_levels() {
    let mut tree = Tree::new();
    // Separators of 900 bytes: three of them stay within the threshold.
    let key = |c: u8| vec![c; 900];
    for c in b'a'..=b'j' {
        tree.put(&key(c), b"");
        for node in tree.overlay.values() {
            assert!(encoded_len(node) <= PAGE_SIZE);
        }
    }
    let root = tree.root.unwrap();
    assert_eq!(depth(&tree, root), 2);
    let (seps, kids) = internal(tree.root_node());
    // The last insert split a leaf, its parent, and so the tree.
    assert_eq!(root, tree.next_page - 1);
    assert_eq!((seps, kids.clone()), (vec![key(b'g')], vec![root - 2, root - 1]));
    assert_eq!(internal(&tree.overlay[&kids[0]]).0, vec![key(b'c'), key(b'e')]);
    let (seps, leaves) = internal(&tree.overlay[&kids[1]]);
    assert_eq!((seps, leaves[1]), (vec![key(b'i')], root - 3));
    assert_eq!(leaf_keys(&tree.overlay[&(root - 3)]), vec![key(b'i'), key(b'j')]);
    assert_eq!(tree.keys(None, None), (b'a'..=b'j').map(key).collect::<Vec<_>>());
}

#[test]
fn leaves_stay_at_one_depth_and_nodes_within_pages() {
    let mut tree = Tree::new();
    let mut x: u32 = 99;
    for step in 0..400u32 {
        x = x.wrapping_mul(1664525).wrapping_add(1013904223);
        let key = vec![(x >> 9) as u8; 1 + (x >> 13) as usize % 1500];
        if x % 5 == 0 {
            tree.delete(&key);
        } else {
            let room = RECORD_BUDGET - key.len();
            tree.put(&key, &vec![step as u8; (x >> 7) as usize % (room + 1)]);
        }
        for node in tree.overlay.values() {
            assert!(encoded_len(node) <= PAGE_SIZE);
        }
        if let Some(root) = tree.root {
            depth(&tree, root);
        }
        tree.forget_unreachable();
    }
}

#[test]
fn a_range_includes_its_start_and_not_its_end() {
    let mut tree = Tree::new();
    for key in [b"d", b"b", b"a", b"c"] {
        tree.put(key, b"x");
    }
    assert_eq!(tree.keys(None, None), vec![b"a", b"b", b"c", b"d"]);
    assert_eq!(tree.keys(Some(b"b"), Some(b"d")), vec![b"b", b"c"]);
    assert_eq!(tree.keys(Some(b"bb"), None), vec![b"c", b"d"]);
    assert_eq!(tree.keys(None, Some(b"a")), Vec::<Vec<u8>>::new());
    assert_eq!(tree.keys(Some(b"c"), Some(b"b")), Vec::<Vec<u8>>::new());
}

#[test]
fn an_empty_tree_has_an_empty_range() {
    assert!(Tree::new().keys(None, None).is_empty());
}

#[test]
fn the_empty_key_is_a_key() {
    let mut tree = Tree::new();
    tree.put(b"", b"nothing");
    tree.put(b"a", b"");
    assert_eq!(tree.get(b""), Some(b"nothing".to_vec()));
    assert_eq!(tree.get(b"a"), Some(Vec::new()));
    assert_eq!(tree.keys(None, None), vec![Vec::new(), b"a".to_vec()]);
}

#[test]
fn many_changes_agree_with_a_sorted_map() {
    let mut tree = Tree::new();
    let mut model = std::collections::BTreeMap::new();
    let mut x: u32 = 12345;
    for step in 0..2000u32 {
        x = x.wrapping_mul(1664525).wrapping_add(1013904223);
        let key = format!("{:03}", (x >> 8) % 300).into_bytes();
        if x % 3 == 0 {
            assert_eq!(tree.delete(&key), model.remove(&key).is_some());
        } else {
            let value = vec![(step % 251) as u8; (x >> 20) as usize % 200];
            tree.put(&key, &value);
            model.insert(key, value);
        }
    }
    let rows = range(&tree.pager, &tree.overlay, tree.root, None, None);
    let expected: Vec<(Vec<u8>, Vec<u8>)> = model.into_iter().collect();
    assert_eq!(rows, expected);
}
