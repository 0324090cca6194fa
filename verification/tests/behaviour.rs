//! How a tree behaves beyond the plain cases.

use sled::error::Error;
use sled::neighbours::Bound;
use sled::node::{Data, Node};
use sled::subscription::{Event, BUFFER_SIZE};
use sled::tree::{Config, Tree};

type Operator = fn(&[u8], Option<&[u8]>, &[u8]) -> Option<Vec<u8>>;

fn concatenate(_key: &[u8], old_value: Option<&[u8]>, merged: &[u8]) -> Option<Vec<u8>> {
    let mut ret = old_value.map(|ov| ov.to_vec()).unwrap_or_default();
    ret.extend_from_slice(merged);
    Some(ret)
}

/// Takes the key out when the operand is empty.
fn erase(_key: &[u8], _old_value: Option<&[u8]>, merged: &[u8]) -> Option<Vec<u8>> {
    if merged.is_empty() {
        None
    } else {
        Some(merged.to_vec())
    }
}

fn config(split_size: usize) -> Config<Operator> {
    Config {
        read_only: false,
        merge_operator: Some(concatenate as Operator),
        blink_node_split_size: split_size,
    }
}

fn tree(split_size: usize) -> Tree<Operator> {
    Tree::new(b"tree".to_vec(), config(split_size))
}

fn key(i: u32) -> Vec<u8> {
    i.to_be_bytes().to_vec()
}

/// Numbers in an order of no order.
fn shuffled(n: u32) -> Vec<u32> {
    let mut numbers: Vec<u32> = (0..n).collect();
    let mut state: u64 = 12345;
    for i in (1..numbers.len()).rev() {
        state = state.wrapping_mul(6364136223846793005).wrapping_add(1442695040888963407);
        let j = (state >> 33) as usize % (i + 1);
        numbers.swap(i, j);
    }
    numbers
}

fn all_keys(t: &mut Tree<Operator>) -> Vec<Vec<u8>> {
    let mut keys = Vec::new();
    let mut walk = t.keys(b"");
    while let Some(k) = walk.next() {
        keys.push(k.unwrap());
    }
    keys
}

fn removed() -> Tree<Operator> {
    let mut t = tree(4096);
    t.set(&[1], vec![1]).unwrap();
    assert!(t.remove());
    t
}

fn not_found() -> Error {
    Error::CollectionNotFound(b"tree".to_vec())
}

fn read_only() -> Tree<Operator> {
    let mut t = tree(4096);
    t.set(&[1], vec![10]).unwrap();
    let bytes = t.dirty_bytes().to_vec();
    let mut setup = config(4096);
    setup.read_only = true;
    let (t, end) = Tree::recover(b"tree".to_vec(), setup, &bytes);
    assert_eq!(end, bytes.len());
    t
}

#[test]
fn a_new_tree_is_empty() {
    let mut t = tree(4096);
    assert!(t.is_empty());
    assert_eq!(t.len(), 0);
    assert_eq!(t.name(), b"tree".to_vec());
    assert_eq!(t.get(b"").unwrap(), None);
    assert!(t.iter().next().is_none());
    assert!(t.iter().next_back().is_none());
    assert_eq!(t.flush(Ok(())).unwrap(), 0);
}

#[test]
fn the_empty_key_is_a_key() {
    let mut t = tree(4096);
    assert_eq!(t.set(b"", vec![9]).unwrap(), None);
    assert_eq!(t.get(b"").unwrap(), Some(vec![9]));
    assert_eq!(t.get_gt(b"").unwrap(), None);
    assert_eq!(t.get_lt(&[0]).unwrap(), Some((vec![], vec![9])));
    assert_eq!(t.del(b"").unwrap(), Some(vec![9]));
    assert!(t.is_empty());
}

#[test]
fn keys_are_in_the_order_of_their_bytes() {
    let mut t = tree(4096);
    let ordered: Vec<Vec<u8>> =
        vec![vec![], vec![0], vec![255], vec![255, 0], vec![255, 255], vec![255, 255, 0]];
    for k in ordered.iter().rev() {
        t.set(k, vec![1]).unwrap();
    }
    assert_eq!(all_keys(&mut t), ordered);
}

#[test]
fn big_endian_numbers_keep_their_order() {
    let mut t = tree(16);
    for i in shuffled(1000) {
        t.set(&(i as u16).to_be_bytes(), vec![0]).unwrap();
    }
    let expected: Vec<Vec<u8>> = (0..1000u16).map(|i| i.to_be_bytes().to_vec()).collect();
    assert_eq!(all_keys(&mut t), expected);
}

#[test]
fn a_write_leaves_other_keys_alone() {
    let mut t = tree(16);
    for i in 0..50 {
        t.set(&key(i), vec![i as u8]).unwrap();
    }
    t.set(&key(20), vec![99]).unwrap();
    t.del(&key(30)).unwrap();
    for i in 0..50 {
        let expected = match i {
            20 => Some(vec![99]),
            30 => None,
            _ => Some(vec![i as u8]),
        };
        assert_eq!(t.get(&key(i)).unwrap(), expected);
    }
}

#[test]
fn a_tree_that_splits_keeps_its_entries() {
    for split_size in [0usize, 1, 16, 64] {
        let mut t = tree(split_size);
        for i in shuffled(500) {
            assert_eq!(t.set(&key(i), vec![i as u8; 3]).unwrap(), None);
        }
        assert_eq!(t.len(), 500);
        for i in 0..500 {
            assert_eq!(t.get(&key(i)).unwrap(), Some(vec![i as u8; 3]));
        }
        let text = t.debug_str();
        assert!(text.contains("level 2:"), "{}", text);
        for i in shuffled(500) {
            assert_eq!(t.del(&key(i)).unwrap(), Some(vec![i as u8; 3]));
        }
        assert!(t.is_empty());
    }
}

#[test]
fn walks_go_across_leaves_both_ways() {
    let mut t = tree(16);
    for i in shuffled(200) {
        t.set(&key(i), vec![]).unwrap();
    }
    // Empty leaves in between.
    for i in 50..120 {
        t.del(&key(i)).unwrap();
    }
    let expected: Vec<Vec<u8>> =
        (0..200).filter(|i| *i < 50 || *i >= 120).map(key).collect();
    assert_eq!(all_keys(&mut t), expected);

    let mut back = Vec::new();
    {
        let mut iter = t.iter();
        while let Some(entry) = iter.next_back() {
            back.push(entry.unwrap().0);
        }
    }
    back.reverse();
    assert_eq!(back, expected);

    assert_eq!(t.get_lt(&key(120)).unwrap(), Some((key(49), vec![])));
    assert_eq!(t.get_gt(&key(49)).unwrap(), Some((key(120), vec![])));
    assert_eq!(t.get_lt(&key(100)).unwrap(), Some((key(49), vec![])));
    assert_eq!(t.get_gt(&key(100)).unwrap(), Some((key(120), vec![])));
}

#[test]
fn the_ends_of_a_range_meet() {
    let mut t = tree(16);
    for i in 0..7 {
        t.set(&key(i), vec![]).unwrap();
    }
    let mut iter = t.range(Bound::Excluded(key(0)), Bound::Included(key(5)));
    assert_eq!(iter.next().unwrap().unwrap().0, key(1));
    assert_eq!(iter.next_back().unwrap().unwrap().0, key(5));
    assert_eq!(iter.next_back().unwrap().unwrap().0, key(4));
    assert_eq!(iter.next().unwrap().unwrap().0, key(2));
    assert_eq!(iter.next_back().unwrap().unwrap().0, key(3));
    assert!(iter.next().is_none());
    assert!(iter.next_back().is_none());
    assert!(iter.next().is_none());
}

#[test]
fn a_range_may_hold_nothing() {
    let mut t = tree(4096);
    t.set(&[5], vec![]).unwrap();
    assert!(t.range(Bound::Included(vec![6]), Bound::Unbounded).next().is_none());
    assert!(t.range(Bound::Unbounded, Bound::Excluded(vec![5])).next().is_none());
    assert!(t.range(Bound::Excluded(vec![5]), Bound::Included(vec![5])).next_back().is_none());
    assert!(t.range(Bound::Included(vec![9]), Bound::Included(vec![1])).next().is_none());
    assert_eq!(
        t.range(Bound::Included(vec![5]), Bound::Included(vec![5])).next().unwrap().unwrap(),
        (vec![5], vec![])
    );
}

#[test]
fn a_scan_meets_its_start_once() {
    let mut t = tree(4096);
    for i in 0u8..5 {
        t.set(&[i], vec![i]).unwrap();
    }
    let mut scan = t.scan(&[2]);
    assert_eq!(scan.next().unwrap().unwrap().0, vec![2]);
    assert_eq!(scan.next_back().unwrap().unwrap().0, vec![1]);
    assert_eq!(scan.next().unwrap().unwrap().0, vec![3]);
    assert_eq!(scan.next_back().unwrap().unwrap().0, vec![0]);
    assert_eq!(scan.next().unwrap().unwrap().0, vec![4]);
    assert!(scan.next().is_none());

    let mut values = t.values(&[2]);
    assert_eq!(values.next_back().unwrap().unwrap(), vec![2]);
    assert_eq!(values.next().unwrap().unwrap(), vec![3]);
    let mut keys = t.keys(&[2]);
    assert_eq!(keys.next_back().unwrap().unwrap(), vec![2]);
    assert_eq!(keys.next_back().unwrap().unwrap(), vec![1]);
}

#[test]
fn cas_tells_what_is_there_instead() {
    let mut t = tree(4096);
    t.set(&[1], vec![10]).unwrap();
    assert_eq!(t.cas(&[1], None, Some(vec![11])).unwrap(), Err(Some(vec![10])));
    assert_eq!(t.cas(&[1], Some(&[9]), Some(vec![11])).unwrap(), Err(Some(vec![10])));
    assert_eq!(t.cas(&[2], Some(&[9]), None).unwrap(), Err(None));
    assert_eq!(t.cas(&[2], None, None).unwrap(), Ok(()));
    assert_eq!(t.get(&[1]).unwrap(), Some(vec![10]));
    assert_eq!(t.get(&[2]).unwrap(), None);
}

#[test]
fn an_update_may_take_the_key_out() {
    let mut t = tree(4096);
    t.set(&[1], vec![10]).unwrap();
    assert_eq!(t.update_and_fetch(&[1], |_| None).unwrap(), None);
    assert_eq!(t.get(&[1]).unwrap(), None);
    t.set(&[1], vec![10]).unwrap();
    assert_eq!(t.fetch_and_update(&[1], |_| None).unwrap(), Some(vec![10]));
    assert_eq!(t.get(&[1]).unwrap(), None);
}

#[test]
fn a_merge_may_take_the_key_out() {
    let mut setup = config(4096);
    setup.merge_operator = Some(erase as Operator);
    let mut t = Tree::new(b"tree".to_vec(), setup);
    t.merge(&[1], vec![5]).unwrap();
    assert_eq!(t.get(&[1]).unwrap(), Some(vec![5]));
    t.merge(&[1], vec![]).unwrap();
    assert_eq!(t.get(&[1]).unwrap(), None);
}

#[test]
fn merges_split_leaves_too() {
    let mut t = tree(16);
    for i in 0..100 {
        t.merge(&key(i), vec![1]).unwrap();
        t.merge(&key(i), vec![2]).unwrap();
    }
    assert_eq!(t.len(), 100);
    assert_eq!(t.get(&key(77)).unwrap(), Some(vec![1, 2]));
    assert!(t.debug_str().contains("level 2:"));
}

#[test]
fn a_read_only_tree_does_not_change() {
    let mut t = read_only();
    let refused = Error::Unsupported("the database is in read-only mode".to_string());
    let no_cas = "can not perform a cas on a read-only Tree".to_string();
    assert_eq!(t.set(&[1], vec![11]), Err(refused));
    assert_eq!(
        t.merge(&[1], vec![11]),
        Err(Error::Unsupported("the database is in read-only mode".to_string()))
    );
    assert_eq!(t.del(&[1]), Ok(None));
    assert_eq!(t.cas(&[1], Some(&[10]), None), Err(Error::Unsupported(no_cas.clone())));
    assert_eq!(t.update_and_fetch(&[1], |_| None), Err(Error::Unsupported(no_cas.clone())));
    assert_eq!(t.fetch_and_update(&[1], |_| None), Err(Error::Unsupported(no_cas)));
    assert_eq!(
        t.clear(),
        Err(Error::Unsupported("the database is in read-only mode".to_string()))
    );
    assert_eq!(t.get(&[1]), Ok(Some(vec![10])));
    assert_eq!(t.dirty_bytes().len(), 0);
}

#[test]
fn an_empty_read_only_tree_is_clear() {
    let mut setup = config(4096);
    setup.read_only = true;
    let mut t = Tree::new(b"tree".to_vec(), setup);
    assert_eq!(t.clear(), Ok(()));
    assert!(t.is_empty());
}

#[test]
fn a_removed_tree_is_not_found() {
    let mut t = removed();
    assert_eq!(t.get(&[1]), Err(not_found()));
    assert_eq!(t.contains_key(&[1]), Err(not_found()));
    assert_eq!(t.set(&[1], vec![]), Err(not_found()));
    assert_eq!(t.del(&[1]), Err(not_found()));
    assert_eq!(t.cas(&[1], None, None), Err(not_found()));
    assert_eq!(t.merge(&[1], vec![]), Err(not_found()));
    assert_eq!(t.update_and_fetch(&[1], |_| None), Err(not_found()));
    assert_eq!(t.fetch_and_update(&[1], |_| None), Err(not_found()));
    assert_eq!(t.get_lt(&[1]), Err(not_found()));
    assert_eq!(t.get_gt(&[1]), Err(not_found()));
    assert_eq!(t.clear(), Err(not_found()));
    assert_eq!(t.announce_merge(&[1]), Err(not_found()));
    {
        let mut iter = t.iter();
        assert_eq!(iter.next(), Some(Err(not_found())));
        assert_eq!(iter.next(), None);
    }
    assert_eq!(t.iter().next_back(), Some(Err(not_found())));
    assert_eq!(t.len(), 1);
    assert!(!t.is_empty());
    assert!(!t.remove());
    assert_eq!(t.name(), b"tree".to_vec());
}

#[test]
fn removing_a_tree_frees_its_pages() {
    let mut t = tree(16);
    for i in 0..100 {
        t.set(&key(i), vec![0; 8]).unwrap();
    }
    assert!(t.remove());
    // Nothing is left to be freed: the leftmost pages are free already.
    assert_eq!(t.gc_pages(vec![1, 2, 3]), Ok(()));
}

#[test]
fn pages_that_do_not_exist_are_reported() {
    let mut t = removed();
    assert_eq!(t.gc_pages(vec![]), Ok(()));
    assert_eq!(
        t.gc_pages(vec![1, 1_000_000]),
        Err(Error::ReportableBug("got non-base node while GC'ing tree: Unallocated".to_string()))
    );
}

#[test]
fn clear_takes_everything_out_in_order() {
    let mut t = tree(16);
    for i in shuffled(40) {
        t.set(&key(i), vec![1]).unwrap();
    }
    let subscriber = t.watch_prefix(vec![]);
    assert_eq!(t.clear(), Ok(()));
    assert!(t.is_empty());
    for i in 0..40 {
        assert_eq!(t.next_event(&subscriber), Some(Event::Del(key(i))));
    }
    assert_eq!(t.next_event(&subscriber), None);
}

#[test]
fn watchers_see_the_events_of_their_prefix_in_order() {
    let mut t = tree(4096);
    let all = t.watch_prefix(vec![]);
    let some = t.watch_prefix(vec![1]);
    t.set(&[1, 2], vec![1]).unwrap();
    t.set(&[2], vec![2]).unwrap();
    t.merge(&[1], vec![3]).unwrap();
    t.cas(&[2], Some(&[2]), Some(vec![4])).unwrap().unwrap();
    t.cas(&[2], Some(&[4]), None).unwrap().unwrap();
    t.del(&[1, 2]).unwrap();
    // A swap that is refused is no event.
    assert_eq!(t.cas(&[9], Some(&[1]), None).unwrap(), Err(None));
    let expected = vec![
        Event::Put(vec![1, 2], vec![1]),
        Event::Put(vec![2], vec![2]),
        Event::Merge(vec![1], vec![3]),
        Event::Put(vec![2], vec![4]),
        Event::Del(vec![2]),
        Event::Del(vec![1, 2]),
    ];
    for event in &expected {
        assert_eq!(t.next_event(&all).as_ref(), Some(event));
    }
    assert_eq!(t.next_event(&all), None);
    for event in expected.iter().filter(|e| e.key().starts_with(&[1])) {
        assert_eq!(t.next_event(&some).as_ref(), Some(event));
    }
    assert_eq!(t.next_event(&some), None);
}

#[test]
fn a_full_buffer_has_no_room() {
    let mut t = tree(4096);
    let subscriber = t.watch_prefix(vec![7]);
    assert_eq!(BUFFER_SIZE, 1024);
    for _ in 0..BUFFER_SIZE {
        assert!(t.has_room(&[7, 1]));
        t.set(&[7, 1], vec![]).unwrap();
    }
    assert!(!t.has_room(&[7, 1]));
    assert!(!t.has_room(&[7]));
    assert!(t.has_room(&[8]));
    assert!(t.next_event(&subscriber).is_some());
    assert!(t.has_room(&[7]));
}

#[test]
fn flushed_writes_are_recovered() {
    let mut t = tree(16);
    let mut storage: Vec<u8> = Vec::new();
    for i in 0..60 {
        t.set(&key(i), vec![i as u8]).unwrap();
    }
    t.merge(&key(3), vec![33]).unwrap();
    t.del(&key(4)).unwrap();
    storage.extend_from_slice(t.dirty_bytes());
    let n = t.dirty_bytes().len();
    assert_eq!(t.flush(Ok(())), Ok(n));
    assert_eq!(t.flush(Ok(())), Ok(0));

    // A write that was cut short by a crash.
    t.set(&key(100), vec![1, 2, 3]).unwrap();
    let torn = t.dirty_bytes();
    storage.extend_from_slice(&torn[..torn.len() - 1]);

    let (mut back, end) = Tree::recover(b"tree".to_vec(), config(16), &storage);
    assert_eq!(end, n);
    assert_eq!(back.len(), 59);
    assert_eq!(back.get(&key(3)).unwrap(), Some(vec![3, 33]));
    assert_eq!(back.get(&key(4)).unwrap(), None);
    assert_eq!(back.get(&key(59)).unwrap(), Some(vec![59]));
    assert_eq!(back.get(&key(100)).unwrap(), None);
    assert_eq!(back.dirty_bytes().len(), 0);
}

#[test]
fn a_write_is_put_down_with_its_lengths() {
    let mut t = tree(4096);
    t.set(&[7, 8], vec![9]).unwrap();
    assert_eq!(
        t.dirty_bytes(),
        &[1, 2, 0, 0, 0, 0, 0, 0, 0, 7, 8, 1, 0, 0, 0, 0, 0, 0, 0, 9][..]
    );
    assert_eq!(t.flush(Ok(())), Ok(20));
    t.del(&[7, 8]).unwrap();
    assert_eq!(t.dirty_bytes(), &[0, 2, 0, 0, 0, 0, 0, 0, 0, 7, 8][..]);
}

#[test]
fn a_failed_flush_keeps_the_dirty_bytes() {
    let mut t = tree(4096);
    t.set(&[1], vec![2]).unwrap();
    let before = t.dirty_bytes().to_vec();
    let failure = Error::ReportableBug("disk full".to_string());
    assert_eq!(
        t.flush(Err(failure)),
        Err(Error::ReportableBug("disk full".to_string()))
    );
    assert_eq!(t.dirty_bytes(), &before[..]);
}

#[test]
fn a_write_that_lost_a_race_starts_over() {
    let mut t = tree(4096);
    t.set(&[1], vec![1]).unwrap();
    let found = t.get_internal(&[1]).unwrap();
    assert_eq!(found.value, Some(vec![1]));
    // Someone else is faster.
    t.set(&[1], vec![2]).unwrap();
    assert_eq!(t.try_set(&[1], vec![3], found), None);
    assert_eq!(t.get(&[1]).unwrap(), Some(vec![2]));

    let found = t.get_internal(&[1]).unwrap();
    assert_eq!(t.try_set(&[1], vec![3], found), Some(Some(vec![2])));
    assert_eq!(t.get(&[1]).unwrap(), Some(vec![3]));

    let found = t.get_internal(&[1]).unwrap();
    let stale = t.get_internal(&[1]).unwrap();
    let staler = t.get_internal(&[1]).unwrap();
    assert_eq!(t.try_write(&[1], None, found), Some(Some(vec![3])));
    assert_eq!(t.try_write(&[1], Some(vec![4]), stale), None);
    assert!(!t.try_merge(&[1], vec![4], staler));
    assert_eq!(t.get(&[1]).unwrap(), None);

    let found = t.get_internal(&[1]).unwrap();
    assert!(t.try_merge(&[1], vec![5], found));
    assert_eq!(t.get(&[1]).unwrap(), Some(vec![5]));
}

#[test]
fn announced_merges_are_completed_by_searches() {
    let mut t = tree(16);
    for i in 0..120 {
        t.set(&key(i), vec![i as u8]).unwrap();
    }
    for i in 0..120 {
        let announced = t.announce_merge(&key(i)).unwrap();
        if announced {
            assert!(t.debug_str().contains("merging_child: Some("));
        }
        assert_eq!(t.get(&key(i)).unwrap(), Some(vec![i as u8]));
        assert!(!t.debug_str().contains("merging_child: Some("));
        // Writes go to the leaf that has taken over.
        t.set(&key(i), vec![i as u8, 1]).unwrap();
    }
    assert_eq!(t.len(), 120);
    for i in 0..120 {
        assert_eq!(t.get(&key(i)).unwrap(), Some(vec![i as u8, 1]));
    }
    let expected: Vec<Vec<u8>> = (0..120).map(key).collect();
    assert_eq!(all_keys(&mut t), expected);
}

#[test]
fn walks_do_not_mind_announced_merges() {
    let mut t = tree(16);
    for i in 0..60 {
        t.set(&key(i), vec![]).unwrap();
    }
    for i in (0..60).step_by(7) {
        t.announce_merge(&key(i)).unwrap();
    }
    let mut back = Vec::new();
    let mut iter = t.iter();
    while let Some(entry) = iter.next_back() {
        back.push(entry.unwrap().0);
    }
    let expected: Vec<Vec<u8>> = (0..60).rev().map(key).collect();
    assert_eq!(back, expected);
}

#[test]
fn the_first_child_is_not_merged() {
    let mut t = tree(4096);
    t.set(&[1], vec![1]).unwrap();
    assert_eq!(t.announce_merge(&[1]), Ok(false));
    assert_eq!(t.get(&[1]).unwrap(), Some(vec![1]));
}

#[test]
fn a_path_is_written_out() {
    let mut t = tree(4096);
    t.set(&[7], vec![8, 9]).unwrap();
    assert_eq!(
        t.key_debug_str(&[7]),
        "\n2: Base(Node { data: Index([([0], 1)]), next: None, lo: [], hi: [], \
         merging_child: None, merging: false })\
         \n1: Base(Node { data: Leaf([([0, 7], [8, 9])]), next: None, lo: [], hi: [], \
         merging_child: None, merging: false })"
    );
}

#[test]
fn a_tree_is_written_out() {
    let mut t = tree(4096);
    t.set(&[7], vec![8, 109]).unwrap();
    assert_eq!(
        t.debug_str(),
        "Tree: \n\tPageCache { max: 3 free: [] }\n\tlevel 0:\n\
         \t\tNode { data: Index([([0], 1)]), next: None, lo: [], hi: [], \
         merging_child: None, merging: false }\n\
         \n\tlevel 1:\n\
         \t\tNode { data: Leaf([([0, 7], [8, 109])]), next: None, lo: [], hi: [], \
         merging_child: None, merging: false }\n"
    );
}

#[test]
fn a_node_is_written_out_as_it_is_for_debugging() {
    let node = Node {
        data: Data::Leaf(vec![(vec![1, 6], vec![]), (vec![0, 200], vec![1, 2])]),
        next: Some(18446744073709551615),
        lo: vec![5],
        hi: vec![201],
        merging_child: Some(10),
        merging: true,
    };
    let mut text = String::new();
    sled::text::push_node(&mut text, &node);
    assert_eq!(text, format!("{:?}", node));
}

#[test]
fn one_who_stops_watching_holds_up_nobody() {
    let mut t = tree(4096);
    let gone = t.watch_prefix(vec![7]);
    let stays = t.watch_prefix(vec![7]);
    for _ in 0..BUFFER_SIZE {
        t.set(&[7], vec![]).unwrap();
        assert!(t.next_event(&stays).is_some());
    }
    assert!(!t.has_room(&[7]));
    t.unwatch(&gone);
    assert!(t.has_room(&[7]));
    t.set(&[7], vec![1]).unwrap();
    assert_eq!(t.next_event(&gone), None);
    assert_eq!(t.next_event(&stays), Some(Event::Put(vec![7], vec![1])));
}

#[test]
fn trees_with_other_split_sizes_answer_alike() {
    let mut a = tree(0);
    let mut b = tree(40);
    let mut c = tree(1_000_000);
    for i in shuffled(300) {
        let k = key(i % 97);
        let v = vec![i as u8; (i % 5) as usize];
        let old = b.get(&k).unwrap();
        match i % 4 {
            0 => {
                let answer = a.set(&k, v.clone());
                assert_eq!(b.set(&k, v.clone()), answer);
                assert_eq!(c.set(&k, v), answer);
            }
            1 => {
                let answer = a.del(&k);
                assert_eq!(b.del(&k), answer);
                assert_eq!(c.del(&k), answer);
            }
            2 => {
                let answer = a.merge(&k, v.clone());
                assert_eq!(b.merge(&k, v.clone()), answer);
                assert_eq!(c.merge(&k, v), answer);
            }
            _ => {
                let expected = if i % 8 == 3 { old.as_deref() } else { None };
                let answer = a.cas(&k, expected, Some(v.clone()));
                assert_eq!(b.cas(&k, expected, Some(v.clone())), answer);
                assert_eq!(c.cas(&k, expected, Some(v)), answer);
            }
        }
    }
    let keys = all_keys(&mut a);
    assert_eq!(all_keys(&mut b), keys);
    assert_eq!(all_keys(&mut c), keys);
    for k in keys {
        let value = a.get(&k).unwrap();
        assert_eq!(b.get(&k).unwrap(), value);
        assert_eq!(c.get(&k).unwrap(), value);
    }
}

#[test]
fn of_those_who_try_to_create_a_key_one_does() {
    let mut t = tree(4096);
    assert_eq!(t.cas(&[1], None, Some(vec![10])), Ok(Ok(())));
    t.set(&[2], vec![]).unwrap();
    for i in 11u8..20 {
        assert_eq!(t.cas(&[1], None, Some(vec![i])), Ok(Err(Some(vec![10]))));
    }
    assert_eq!(t.get(&[1]), Ok(Some(vec![10])));
}

#[test]
fn a_del_of_nothing_is_an_event() {
    let mut t = tree(4096);
    let subscriber = t.watch_prefix(vec![]);
    assert_eq!(t.del(&[1]), Ok(None));
    assert_eq!(t.next_event(&subscriber), Some(Event::Del(vec![1])));
}

#[test]
fn an_update_is_called_on_what_is_held() {
    let mut t = tree(4096);
    t.set(&[1], vec![4]).unwrap();
    let mut seen = Vec::new();
    let next = t.update_and_fetch(&[1], |old: Option<&[u8]>| {
        seen.push(old.map(|o| o.to_vec()));
        Some(vec![old.unwrap()[0] + 1])
    });
    assert_eq!(next, Ok(Some(vec![5])));
    assert_eq!(seen, vec![Some(vec![4])]);
}

#[test]
fn a_search_links_a_leaf_that_was_split_off() {
    let mut t = tree(0);
    for i in 0..3 {
        t.set(&key(i), vec![]).unwrap();
    }
    // The write of the fourth key splits the leaf; the root does not know it yet.
    t.set(&key(3), vec![]).unwrap();
    let before = t.debug_str();
    assert!(before.contains("Index([([0], 1)])"), "{}", before);
    assert_eq!(t.get(&key(0)).unwrap(), Some(vec![]));
    assert_eq!(t.debug_str(), before);
    assert_eq!(t.get(&key(3)).unwrap(), Some(vec![]));
    let after = t.debug_str();
    assert!(after.contains("Index([([0], 1), ([0, 0, 0, 0, 2], 3)])"), "{}", after);
    // Once that has been done, a search changes nothing.
    assert_eq!(t.get(&key(3)).unwrap(), Some(vec![]));
    assert_eq!(t.debug_str(), after);
}

#[test]
fn a_path_shows_the_nodes_as_they_were_found() {
    let mut t = tree(0);
    for i in 0..4 {
        t.set(&key(i), vec![]).unwrap();
    }
    // The root is linked to the second leaf by the search, after it has been found.
    let path = t.key_debug_str(&key(3));
    assert!(path.starts_with("\n2: Base(Node { data: Index([([0], 1)]), "), "{}", path);
    assert!(path.contains("\n3: Base(Node { data: Leaf("), "{}", path);
    let path = t.key_debug_str(&key(3));
    assert!(path.starts_with("\n2: Base(Node { data: Index([([0], 1), ([0, 0, 0, 0, 2], 3)]), "));
}

#[test]
fn searches_leave_no_announcement_on_their_way() {
    let mut t = tree(16);
    for i in shuffled(90) {
        t.set(&key(i), vec![]).unwrap();
    }
    for i in (0..90).step_by(5) {
        t.announce_merge(&key(i)).unwrap();
    }
    assert!(t.debug_str().contains("merging_child: Some("));
    for i in 0..90 {
        assert!(t.contains_key(&key(i)).unwrap());
        assert!(!t.key_debug_str(&key(i)).contains("merging_child: Some("));
    }
    assert!(!t.debug_str().contains("merging_child: Some("));
}

#[test]
fn a_walk_that_could_not_start_tells_so_once() {
    let broken = || Err(Error::ReportableBug("no transaction".to_owned()));
    let mut t = tree(4096);
    t.set(&[1], vec![1]).unwrap();

    let mut iter = t.range_if(broken(), Bound::Included(vec![1]), Bound::Excluded(vec![2]));
    assert_eq!(iter.broken, broken().err());
    assert!(!iter.done && !iter.is_scan);
    assert!(matches!(iter.lo, Bound::Unbounded));
    assert!(matches!(iter.hi, Bound::Unbounded));
    assert_eq!(iter.next(), Some(Err(broken().unwrap_err())));
    assert_eq!(iter.broken, None);
    assert_eq!(iter.next(), None);
    assert_eq!(iter.next_back(), None);

    let mut iter = t.range_if(broken(), Bound::Unbounded, Bound::Unbounded);
    assert_eq!(iter.next_back(), Some(Err(broken().unwrap_err())));
    assert_eq!(iter.next_back(), None);
    assert_eq!(iter.next(), None);

    let mut iter = t.scan_if(broken(), &[1]);
    assert!(iter.is_scan);
    assert_eq!(iter.next(), Some(Err(broken().unwrap_err())));
    assert_eq!(iter.next(), None);

    let mut iter = t.range_if(Ok(()), Bound::Included(vec![1]), Bound::Excluded(vec![2]));
    assert_eq!(iter.next(), Some(Ok((vec![1], vec![1]))));
    assert_eq!(iter.next(), None);
}
