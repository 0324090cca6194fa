//! The examples of the documentation.

use sled::neighbours::Bound;
use sled::subscription::Event;
use sled::tree::{Config, Tree};

type Operator = fn(&[u8], Option<&[u8]>, &[u8]) -> Option<Vec<u8>>;

fn concatenate_merge(_key: &[u8], old_value: Option<&[u8]>, merged: &[u8]) -> Option<Vec<u8>> {
    let mut ret = old_value.map(|ov| ov.to_vec()).unwrap_or_default();
    ret.extend_from_slice(merged);
    Some(ret)
}

fn tree() -> Tree<Operator> {
    let config = Config { read_only: false, merge_operator: None, blink_node_split_size: 4096 };
    Tree::new(b"db".to_vec(), config)
}

fn six_keys() -> Tree<Operator> {
    let mut t = tree();
    for i in 0u8..6 {
        t.set(&[i], vec![i * 10]).unwrap();
    }
    t
}

fn increment(old: Option<&[u8]>) -> Option<Vec<u8>> {
    let number = match old {
        Some(bytes) => {
            let mut array = [0u8; 8];
            array.copy_from_slice(bytes);
            u64::from_be_bytes(array) + 1
        }
        None => 0,
    };
    Some(number.to_be_bytes().to_vec())
}

fn number(n: u64) -> Option<Vec<u8>> {
    Some(n.to_be_bytes().to_vec())
}

#[test]
fn a_tree_in_use() {
    let mut t = tree();
    t.set(b"yo!", b"v1".to_vec()).unwrap();
    assert_eq!(t.get(b"yo!").unwrap(), Some(b"v1".to_vec()));

    assert_eq!(t.cas(b"yo!", Some(b"v1"), Some(b"v2".to_vec())).unwrap(), Ok(()));

    {
        let mut iter = t.scan(b"a non-present key before yo!");
        assert_eq!(iter.next().unwrap().unwrap(), (b"yo!".to_vec(), b"v2".to_vec()));
        assert!(iter.next().is_none());
    }

    t.del(b"yo!").unwrap();
    assert_eq!(t.get(b"yo!").unwrap(), None);
}

#[test]
fn set_tells_the_last_value() {
    let mut t = tree();
    assert_eq!(t.set(&[0], vec![0]).unwrap(), None);
    assert_eq!(t.set(&[0], vec![1]).unwrap(), Some(vec![0]));
}

#[test]
fn get_finds_what_was_set() {
    let mut t = tree();
    t.set(&[0], vec![0]).unwrap();
    assert_eq!(t.get(&[0]).unwrap(), Some(vec![0]));
    assert_eq!(t.get(&[1]).unwrap(), None);
}

#[test]
fn del_tells_the_old_value() {
    let mut t = tree();
    t.set(&[1], vec![1]).unwrap();
    assert_eq!(t.del(&[1]).unwrap(), Some(vec![1]));
    assert_eq!(t.del(&[1]).unwrap(), None);
}

#[test]
fn cas_creates_modifies_and_deletes() {
    let mut t = tree();
    // unique creation
    assert_eq!(t.cas(&[1], None, Some(vec![10])).unwrap(), Ok(()));
    // conditional modification
    assert_eq!(t.cas(&[1], Some(&[10]), Some(vec![20])).unwrap(), Ok(()));
    // conditional deletion
    assert_eq!(t.cas(&[1], Some(&[20]), None).unwrap(), Ok(()));
    assert_eq!(t.get(&[1]).unwrap(), None);
}

#[test]
fn update_and_fetch_counts() {
    let mut t = tree();
    assert_eq!(t.update_and_fetch(b"counter", increment).unwrap(), number(0));
    assert_eq!(t.update_and_fetch(b"counter", increment).unwrap(), number(1));
    assert_eq!(t.update_and_fetch(b"counter", increment).unwrap(), number(2));
    assert_eq!(t.update_and_fetch(b"counter", increment).unwrap(), number(3));
}

#[test]
fn fetch_and_update_counts() {
    let mut t = tree();
    assert_eq!(t.fetch_and_update(b"counter", increment).unwrap(), None);
    assert_eq!(t.fetch_and_update(b"counter", increment).unwrap(), number(0));
    assert_eq!(t.fetch_and_update(b"counter", increment).unwrap(), number(1));
    assert_eq!(t.fetch_and_update(b"counter", increment).unwrap(), number(2));
}

#[test]
fn watching_the_empty_prefix_sees_all_events() {
    let mut t = tree();
    let subscriber = t.watch_prefix(vec![]);
    t.set(&[0], vec![1]).unwrap();
    assert_eq!(t.next_event(&subscriber), Some(Event::Put(vec![0], vec![1])));
    assert_eq!(t.next_event(&subscriber), None);
}

#[test]
fn contains_key_tells_what_is_there() {
    let mut t = tree();
    t.set(&[0], vec![0]).unwrap();
    assert!(t.contains_key(&[0]).unwrap());
    assert!(!t.contains_key(&[1]).unwrap());
}

#[test]
fn get_lt_finds_the_key_before() {
    let mut t = tree();
    for i in 0u8..10 {
        t.set(&[i], vec![i]).unwrap();
    }
    assert_eq!(t.get_lt(&[]).unwrap(), None);
    assert_eq!(t.get_lt(&[0]).unwrap(), None);
    assert_eq!(t.get_lt(&[1]).unwrap(), Some((vec![0], vec![0])));
    assert_eq!(t.get_lt(&[9]).unwrap(), Some((vec![8], vec![8])));
    assert_eq!(t.get_lt(&[10]).unwrap(), Some((vec![9], vec![9])));
    assert_eq!(t.get_lt(&[255]).unwrap(), Some((vec![9], vec![9])));
}

#[test]
fn get_gt_finds_the_key_after() {
    let mut t = tree();
    for i in 0u8..10 {
        t.set(&[i], vec![i]).unwrap();
    }
    assert_eq!(t.get_gt(&[]).unwrap(), Some((vec![0], vec![0])));
    assert_eq!(t.get_gt(&[0]).unwrap(), Some((vec![1], vec![1])));
    assert_eq!(t.get_gt(&[1]).unwrap(), Some((vec![2], vec![2])));
    assert_eq!(t.get_gt(&[8]).unwrap(), Some((vec![9], vec![9])));
    assert_eq!(t.get_gt(&[9]).unwrap(), None);

    t.set(&500u16.to_be_bytes(), vec![10]).unwrap();
    assert_eq!(
        t.get_gt(&499u16.to_be_bytes()).unwrap(),
        Some((500u16.to_be_bytes().to_vec(), vec![10]))
    );
}

#[test]
fn merge_combines_values() {
    let config = Config {
        read_only: false,
        merge_operator: Some(concatenate_merge as Operator),
        blink_node_split_size: 4096,
    };
    let mut t = Tree::new(b"db".to_vec(), config);
    let k = b"k1";

    t.set(k, vec![0]).unwrap();
    t.merge(k, vec![1]).unwrap();
    t.merge(k, vec![2]).unwrap();
    assert_eq!(t.get(k).unwrap(), Some(vec![0, 1, 2]));

    // Replaces what had been merged.
    t.set(k, vec![3]).unwrap();
    assert_eq!(t.get(k).unwrap(), Some(vec![3]));

    // A merge where there is nothing starts from nothing.
    t.del(k).unwrap();
    t.merge(k, vec![4]).unwrap();
    assert_eq!(t.get(k).unwrap(), Some(vec![4]));
}

#[test]
fn iter_walks_over_all_entries() {
    let mut t = tree();
    t.set(&[1], vec![10]).unwrap();
    t.set(&[2], vec![20]).unwrap();
    t.set(&[3], vec![30]).unwrap();
    let mut iter = t.iter();
    assert_eq!(iter.next().unwrap().unwrap(), (vec![1], vec![10]));
    assert_eq!(iter.next().unwrap().unwrap(), (vec![2], vec![20]));
    assert_eq!(iter.next().unwrap().unwrap(), (vec![3], vec![30]));
    assert!(iter.next().is_none());
}

#[test]
fn scan_walks_up_from_its_start() {
    let mut t = six_keys();
    let mut r = t.scan(&[2]);
    assert_eq!(r.next().unwrap().unwrap(), (vec![2], vec![20]));
    assert_eq!(r.next().unwrap().unwrap(), (vec![3], vec![30]));
    assert_eq!(r.next().unwrap().unwrap(), (vec![4], vec![40]));
    assert_eq!(r.next().unwrap().unwrap(), (vec![5], vec![50]));
    assert!(r.next().is_none());
}

#[test]
fn scan_walks_down_from_its_start() {
    let mut t = six_keys();
    let mut r = t.scan(&[2]);
    assert_eq!(r.next_back().unwrap().unwrap(), (vec![2], vec![20]));
    assert_eq!(r.next_back().unwrap().unwrap(), (vec![1], vec![10]));
    assert_eq!(r.next_back().unwrap().unwrap(), (vec![0], vec![0]));
    assert!(r.next_back().is_none());
}

#[test]
fn range_walks_up_within_its_bounds() {
    let mut t = six_keys();
    let mut r = t.range(Bound::Included(vec![2]), Bound::Excluded(vec![4]));
    assert_eq!(r.next().unwrap().unwrap(), (vec![2], vec![20]));
    assert_eq!(r.next().unwrap().unwrap(), (vec![3], vec![30]));
    assert!(r.next().is_none());
}

#[test]
fn range_walks_down_within_its_bounds() {
    let mut t = six_keys();
    let mut r = t.range(Bound::Included(vec![2]), Bound::Excluded(vec![4]));
    assert_eq!(r.next_back().unwrap().unwrap(), (vec![3], vec![30]));
    assert_eq!(r.next_back().unwrap().unwrap(), (vec![2], vec![20]));
    assert!(r.next_back().is_none());
}

#[test]
fn keys_walks_over_keys() {
    let mut t = tree();
    t.set(&[1], vec![10]).unwrap();
    t.set(&[2], vec![20]).unwrap();
    t.set(&[3], vec![30]).unwrap();
    let mut iter = t.keys(&[2]);
    assert_eq!(iter.next().unwrap().unwrap(), vec![2]);
    assert_eq!(iter.next().unwrap().unwrap(), vec![3]);
    assert!(iter.next().is_none());
}

#[test]
fn values_walks_over_values() {
    let mut t = tree();
    t.set(b"a", vec![1]).unwrap();
    t.set(b"b", vec![2]).unwrap();
    t.set(b"c", vec![3]).unwrap();
    let mut iter = t.values(b"b");
    assert_eq!(iter.next().unwrap().unwrap(), vec![2]);
    assert_eq!(iter.next().unwrap().unwrap(), vec![3]);
    assert!(iter.next().is_none());
}

#[test]
fn len_counts_entries() {
    let mut t = tree();
    t.set(b"a", vec![0]).unwrap();
    t.set(b"b", vec![1]).unwrap();
    assert_eq!(t.len(), 2);
}
