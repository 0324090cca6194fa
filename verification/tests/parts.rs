//! The parts of which a tree is made.

use sled::entries::{binary_search_lub, leaf_search, Side};
use sled::journal::{append_record, read_record};
use sled::key::{compare, is_before, is_same, Standing};
use sled::neighbours::Bound;
use sled::node::{find_pointer, ChildSplit, Data, Frag, Node, ParentSplit};
use sled::pagecache::{PageCache, PageGet};
use sled::prefix::{prefix_compare, prefix_decode, prefix_encode};
use sled::subscription::{has_prefix, Event, Subscriptions};

type Operator = fn(&[u8], Option<&[u8]>, &[u8]) -> Option<Vec<u8>>;

fn no_operator() -> Option<Operator> {
    None
}

/// Puts the operand before what is there.
fn prepend(_key: &[u8], old: Option<&[u8]>, operand: &[u8]) -> Option<Vec<u8>> {
    let mut value = operand.to_vec();
    value.extend_from_slice(old.unwrap_or(&[]));
    Some(value)
}

/// A leaf for keys that start with 5, from [5] on and before [6].
fn leaf(keys: &[u8]) -> Node {
    let mut items = Vec::new();
    for k in keys {
        items.push((prefix_encode(&[5], &[5, *k]), vec![*k]));
    }
    Node {
        data: Data::Leaf(items),
        next: Some(9),
        lo: vec![5],
        hi: vec![6],
        merging_child: None,
        merging: false,
    }
}

fn entries(node: &Node) -> Vec<(Vec<u8>, Vec<u8>)> {
    match &node.data {
        Data::Leaf(items) => {
            items.iter().map(|(k, v)| (prefix_decode(&node.lo, k), v.clone())).collect()
        }
        Data::Index(_) => panic!("not a leaf"),
    }
}

fn index(pointers: &[(u8, u64)]) -> Node {
    let mut items = vec![(prefix_encode(&[], &[]), 1)];
    for (k, p) in pointers {
        items.push((prefix_encode(&[], &[*k]), *p));
    }
    Node {
        data: Data::Index(items),
        next: None,
        lo: vec![],
        hi: vec![],
        merging_child: None,
        merging: false,
    }
}

fn pointers(node: &Node) -> Vec<(Vec<u8>, u64)> {
    match &node.data {
        Data::Index(items) => {
            items.iter().map(|(k, p)| (prefix_decode(&node.lo, k), *p)).collect()
        }
        Data::Leaf(_) => panic!("not an index node"),
    }
}

#[test]
fn keys_compare_as_byte_strings() {
    assert!(matches!(compare(&[], &[]), Standing::Same));
    assert!(matches!(compare(&[], &[0]), Standing::Before));
    assert!(matches!(compare(&[255], &[255, 0]), Standing::Before));
    assert!(matches!(compare(&[2], &[1, 255]), Standing::After));
    assert!(is_before(&[0], &[255]));
    assert!(!is_before(&[1], &[1]));
    assert!(is_same(&[1, 2], &[1, 2]));
    assert!(!is_same(&[1, 2], &[1]));
}

#[test]
fn keys_are_stored_without_what_they_share() {
    assert_eq!(prefix_encode(&[1, 2], &[1, 2, 3]), vec![2, 3]);
    assert_eq!(prefix_encode(&[1, 2], &[1, 3]), vec![1, 3]);
    assert_eq!(prefix_encode(&[], &[7]), vec![0, 7]);
    assert_eq!(prefix_decode(&[1, 2], &[2, 3]), vec![1, 2, 3]);
    for (prefix, key) in [(vec![], vec![]), (vec![9; 300], vec![9; 400]), (vec![1], vec![2])] {
        let stored = prefix_encode(&prefix, &key);
        assert_eq!(prefix_decode(&prefix, &stored), key);
        assert!(matches!(prefix_compare(&stored, &key, &prefix), Standing::Same));
    }
    // No more than fits in one byte is shared.
    assert_eq!(prefix_encode(&[9; 300], &[9; 300])[0], 255);
    assert!(matches!(prefix_compare(&[1, 7], &[5, 8], &[5]), Standing::Before));
    assert!(matches!(prefix_compare(&[1, 9], &[5, 8], &[5]), Standing::After));
}

#[test]
fn searches_in_a_leaf_find_neighbours() {
    let node = leaf(&[10, 20, 30]);
    let items = match &node.data {
        Data::Leaf(items) => items,
        Data::Index(_) => panic!("not a leaf"),
    };
    assert_eq!(leaf_search(Side::Less, items, &[5], &[5, 20]), Some(0));
    assert_eq!(leaf_search(Side::Less, items, &[5], &[5, 10]), None);
    assert_eq!(leaf_search(Side::Greater, items, &[5], &[5, 20]), Some(2));
    assert_eq!(leaf_search(Side::Greater, items, &[5], &[5, 25]), Some(2));
    assert_eq!(leaf_search(Side::Greater, items, &[5], &[5, 30]), None);
    assert_eq!(binary_search_lub(items, &[5], &[5, 20]), Some(1));
    assert_eq!(binary_search_lub(items, &[5], &[5, 29]), Some(1));
    assert_eq!(binary_search_lub(items, &[5], &[5]), None);
}

#[test]
fn a_node_changes_by_what_is_applied() {
    let mut node = leaf(&[10, 20]);
    node.apply(Frag::Put(prefix_encode(&[5], &[5, 15]), vec![1]), &no_operator());
    node.apply(Frag::Del(prefix_encode(&[5], &[5, 10])), &no_operator());
    node.apply(
        Frag::Merge(prefix_encode(&[5], &[5, 20]), vec![2]),
        &Some(prepend as Operator),
    );
    assert_eq!(entries(&node), vec![(vec![5, 15], vec![1]), (vec![5, 20], vec![2, 20])]);
    assert_eq!(node.get(&[5, 20]), Some(vec![2, 20]));
    assert_eq!(node.get(&[5, 10]), None);
    node.apply(Frag::ChildMergeCap, &no_operator());
    assert!(node.merging);
}

#[test]
fn a_node_is_halved_and_put_together_again() {
    let whole = leaf(&[10, 20, 30, 40, 50]);
    let right = whole.split();
    assert_eq!(right.lo, vec![5, 30]);
    assert_eq!(right.hi, vec![6]);
    assert_eq!(right.next, Some(9));
    assert_eq!(entries(&right).len(), 3);
    let mut left = whole.duplicate();
    left.apply(
        Frag::ChildSplit(ChildSplit { at: right.lo.clone(), to: 77 }),
        &no_operator(),
    );
    assert_eq!(left.hi, vec![5, 30]);
    assert_eq!(left.next, Some(77));
    assert_eq!(entries(&left).len(), 2);
    let merged = left.receive_merge(&right);
    assert!(merged.same(&whole));
    assert!(!left.same(&whole));
}

#[test]
fn an_index_node_learns_and_drops_children() {
    let mut node = index(&[(20, 2), (40, 4)]);
    node.apply(Frag::ParentSplit(ParentSplit { at: vec![30], to: 3 }), &no_operator());
    let expected = vec![(vec![], 1), (vec![20], 2), (vec![30], 3), (vec![40], 4)];
    assert_eq!(pointers(&node), expected);
    // A separator that is there stays.
    node.apply(Frag::ParentSplit(ParentSplit { at: vec![30], to: 8 }), &no_operator());
    assert_eq!(pointers(&node), expected);
    node.apply(Frag::ParentMergeIntention(3), &no_operator());
    assert_eq!(node.merging_child, Some(3));
    node.apply(Frag::ParentMergeConfirm, &no_operator());
    assert_eq!(node.merging_child, None);
    assert_eq!(pointers(&node), vec![(vec![], 1), (vec![20], 2), (vec![40], 4)]);
    match &node.data {
        Data::Index(items) => {
            assert_eq!(find_pointer(items, &[], 4), 2);
            assert_eq!(find_pointer(items, &[], 3), 3);
        }
        Data::Leaf(_) => panic!("not an index node"),
    }
}

#[test]
fn small_nodes_and_nodes_in_a_merge_are_not_split() {
    assert!(leaf(&[10, 20, 30]).should_split(0));
    assert!(!leaf(&[10, 20]).should_split(0));
    assert!(!leaf(&[10, 20, 30]).should_split(1000));
    let mut node = leaf(&[10, 20, 30]);
    node.merging = true;
    assert!(!node.should_split(0));
    // One byte each for the bounds; two for each stored key and one for each value.
    assert!(leaf(&[10, 20, 30]).should_split(10));
    assert!(!leaf(&[10, 20, 30]).should_split(11));
}

#[test]
fn a_page_changes_only_where_it_is_as_expected() {
    let mut cache = PageCache::new();
    let (pid, first) = cache.allocate(leaf(&[10]));
    assert_eq!(pid, 1);
    let frag = Frag::Put(prefix_encode(&[5], &[5, 11]), vec![3]);
    let second = cache.link(pid, &first, frag, &no_operator()).unwrap();
    assert_eq!(entries(&second).len(), 2);

    let late = Frag::Put(prefix_encode(&[5], &[5, 12]), vec![3]);
    let refused = cache.link(pid, &first, late, &no_operator());
    assert!(refused.unwrap_err().unwrap().same(&second));
    assert!(cache.replace(pid, &first, leaf(&[])).is_err());
    assert!(cache.free(pid, &first).is_err());

    let third = cache.replace(pid, &second, leaf(&[1, 2, 3])).unwrap();
    assert!(cache.free(pid, &third).is_ok());
    assert!(matches!(cache.get(pid), PageGet::Free));
    assert!(matches!(cache.get(pid + 1), PageGet::Unallocated));
    assert!(cache.free(pid, &third).unwrap_err().is_none());
    // A free page is used again.
    assert_eq!(cache.allocate(leaf(&[])).0, pid);
}

#[test]
fn roots_are_swapped_only_where_they_are_as_expected() {
    let mut cache = PageCache::new();
    assert_eq!(cache.root_in_meta(b"a"), None);
    assert_eq!(cache.cas_root_in_meta(b"a", Some(1), Some(2)), Err(None));
    assert_eq!(cache.cas_root_in_meta(b"a", None, Some(2)), Ok(()));
    assert_eq!(cache.cas_root_in_meta(b"b", None, Some(7)), Ok(()));
    assert_eq!(cache.cas_root_in_meta(b"a", None, Some(3)), Err(Some(2)));
    assert_eq!(cache.cas_root_in_meta(b"a", Some(2), None), Ok(()));
    assert_eq!(cache.root_in_meta(b"a"), None);
    assert_eq!(cache.root_in_meta(b"b"), Some(7));
}

#[test]
fn records_are_read_back() {
    let mut journal = Vec::new();
    append_record(&mut journal, b"key", Some(b"value"));
    append_record(&mut journal, b"gone", None);
    let (first, at) = read_record(&journal, 0).unwrap();
    assert_eq!((first.key, first.value), (b"key".to_vec(), Some(b"value".to_vec())));
    let (second, end) = read_record(&journal, at).unwrap();
    assert_eq!((second.key, second.value), (b"gone".to_vec(), None));
    assert_eq!(end, journal.len());
    assert!(read_record(&journal, end).is_none());
    // Cut short, or of no known kind.
    assert!(read_record(&journal[..at - 1], 0).is_none());
    assert!(read_record(&[7, 0, 0, 0, 0, 0, 0, 0, 0], 0).is_none());
    assert!(read_record(&[1, 255, 255, 255, 255, 255, 255, 255, 255], 0).is_none());
}

#[test]
fn bounds_tell_what_is_in_a_range() {
    let included = Bound::Included(vec![5]);
    assert!(included.is_start_of(&[5]) && included.is_start_of(&[5, 0]));
    assert!(!included.is_start_of(&[4, 255]));
    assert!(included.is_end_of(&[5]) && !included.is_end_of(&[5, 0]));
    let excluded = Bound::Excluded(vec![5]);
    assert!(!excluded.is_start_of(&[5]) && excluded.is_start_of(&[5, 0]));
    assert!(!excluded.is_end_of(&[5]) && excluded.is_end_of(&[4, 255]));
    assert!(Bound::Unbounded.is_start_of(&[]) && Bound::Unbounded.is_end_of(&[255]));
}

#[test]
fn events_go_to_those_who_watch() {
    assert!(has_prefix(&[1, 2, 3], &[1, 2]));
    assert!(has_prefix(&[1], &[]));
    assert!(!has_prefix(&[1], &[1, 2]));
    assert!(!has_prefix(&[2, 1], &[1]));
    let mut subscriptions = Subscriptions::new();
    let a = subscriptions.register(vec![1]);
    let b = subscriptions.register(vec![2]);
    subscriptions.publish(Event::Del(vec![1, 1]));
    assert_eq!(subscriptions.next(&b), None);
    assert_eq!(subscriptions.next(&a), Some(Event::Del(vec![1, 1])));
    assert_eq!(subscriptions.next(&a), None);
}
