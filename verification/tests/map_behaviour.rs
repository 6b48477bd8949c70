use concread::bptree::{BptreeMap, L_CAPACITY};
use std::collections::BTreeMap;
use std::sync::Arc;

fn numbers(map: &BptreeMap<usize, usize>) -> Vec<(usize, usize)> {
    map.read().iter().into_iter().map(|(k, v)| (*k, *v)).collect()
}

#[test]
fn new_and_default_are_empty() {
    let a: BptreeMap<usize, usize> = BptreeMap::new();
    let b: BptreeMap<usize, usize> = BptreeMap::default();
    assert_eq!(a.read().len(), 0);
    assert!(b.read().is_empty());
    assert!(a.write().is_empty());
    assert_eq!(a.read().get(&1), None);
    assert!(a.read().iter().is_empty());
    assert!(a.read().verify());
}

#[test]
fn insert_returns_the_previous_value() {
    let map: BptreeMap<usize, String> = BptreeMap::new();
    let mut w = map.write();
    assert_eq!(w.insert(1, String::from("a")), None);
    assert_eq!(w.insert(1, String::from("b")), Some(String::from("a")));
    assert_eq!(w.len(), 1);
    w.commit();
    // The value is shared with the committed version now.
    let r = map.read();
    let mut w = map.write();
    assert_eq!(w.insert(1, String::from("c")), Some(String::from("b")));
    assert_eq!(w.get(&1), Some(&String::from("c")));
    assert_eq!(r.get(&1), Some(&String::from("b")));
}

#[test]
fn remove_returns_the_value() {
    let map: BptreeMap<usize, String> = BptreeMap::new();
    let mut w = map.write();
    assert_eq!(w.remove(&1), None);
    w.insert(1, String::from("a"));
    w.insert(2, String::from("b"));
    w.commit();
    let r = map.read();
    let mut w = map.write();
    assert_eq!(w.remove(&1), Some(String::from("a")));
    assert_eq!(w.remove(&1), None);
    assert_eq!(w.len(), 1);
    assert!(!w.contains_key(&1));
    assert!(w.contains_key(&2));
    assert!(r.contains_key(&1));
}

#[test]
fn remove_undoes_insert() {
    let map = BptreeMap::from_iter((0..100usize).map(|v| (v * 2, v)));
    let before = numbers(&map);
    let mut w = map.write();
    assert_eq!(w.insert(51, 7), None);
    assert_eq!(w.len(), 101);
    assert_eq!(w.remove(&51), Some(7));
    w.commit();
    assert_eq!(numbers(&map), before);
}

#[test]
fn the_second_of_two_inserts_counts() {
    let map = BptreeMap::from_iter(vec![(1usize, 10usize), (2, 20)].into_iter());
    let mut w = map.write();
    w.insert(2, 21);
    w.insert(2, 22);
    w.commit();
    assert_eq!(numbers(&map), vec![(1, 10), (2, 22)]);
}

#[test]
fn from_iter_takes_the_last_of_equal_keys() {
    let items: Vec<(usize, usize)> = vec![(3, 1), (1, 2), (3, 3), (2, 4), (1, 5)];
    let map = BptreeMap::from_iter(items.into_iter());
    assert_eq!(numbers(&map), vec![(1, 5), (2, 4), (3, 3)]);
    assert_eq!(map.read().len(), 3);
}

#[test]
fn extend_keeps_what_it_does_not_mention() {
    let map = BptreeMap::from_iter((0..20usize).map(|v| (v, v)));
    let mut w = map.write();
    w.extend((15..25usize).map(|v| (v, v + 100)));
    assert_eq!(w.get(&14), Some(&14));
    assert_eq!(w.get(&15), Some(&115));
    assert_eq!(w.get(&24), Some(&124));
    assert_eq!(w.len(), 25);
    assert!(w.verify());
}

#[test]
fn keys_and_values_go_with_the_entries() {
    let map = BptreeMap::from_iter((0..30usize).rev().map(|v| (v, v * v)));
    let r = map.read();
    let keys: Vec<usize> = r.keys().into_iter().copied().collect();
    let values: Vec<usize> = r.values().into_iter().copied().collect();
    assert_eq!(keys, (0..30).collect::<Vec<usize>>());
    assert_eq!(values, (0..30).map(|v| v * v).collect::<Vec<usize>>());
    let w = map.write();
    assert_eq!(w.keys(), r.keys());
    assert_eq!(w.values(), r.values());
    assert_eq!(w.iter(), r.iter());
}

#[test]
fn split_off_lt_keeps_the_key_itself() {
    let map = BptreeMap::from_iter((0..100usize).map(|v| (v * 2, v)));
    let mut w = map.write();
    w.split_off_lt(&50);
    assert_eq!(w.len(), 75);
    assert!(!w.contains_key(&48));
    assert_eq!(w.get(&50), Some(&25));
    w.split_off_lt(&51);
    assert_eq!(w.len(), 74);
    assert!(!w.contains_key(&50));
    assert!(w.verify());
    w.split_off_lt(&0);
    assert_eq!(w.len(), 74);
    w.split_off_lt(&1000);
    assert!(w.is_empty());
    assert!(w.verify());
    assert_eq!(map.read().len(), 100);
}

#[test]
fn get_mut_changes_one_value_of_one_transaction() {
    let map = BptreeMap::from_iter((0..50usize).map(|v| (v, vec![v])));
    let before = map.read();
    let mut w = map.write();
    assert!(w.get_mut(&50).is_none());
    w.get_mut(&20).unwrap().push(1);
    // The transaction has a copy of its own by now.
    w.get_mut(&20).unwrap().push(2);
    assert_eq!(w.get(&20), Some(&vec![20, 1, 2]));
    assert_eq!(w.get(&21), Some(&vec![21]));
    assert_eq!(w.len(), 50);
    assert_eq!(before.get(&20), Some(&vec![20]));
    w.commit();
    assert_eq!(before.get(&20), Some(&vec![20]));
    assert_eq!(map.read().get(&20), Some(&vec![20, 1, 2]));
}

#[test]
fn writing_a_value_back_changes_nothing() {
    let map = BptreeMap::from_iter((0..50usize).map(|v| (v, v)));
    let before = numbers(&map);
    let mut w = map.write();
    let v = w.get_mut(&7).unwrap();
    *v = 7;
    w.insert(8, 8);
    w.commit();
    assert_eq!(numbers(&map), before);
}

#[test]
fn a_dropped_writer_leaves_no_trace() {
    let map = BptreeMap::from_iter((0..40usize).map(|v| (v, v)));
    let before = numbers(&map);
    {
        let mut w = map.write();
        w.insert(100, 100);
        w.remove(&3);
        *w.get_mut(&4).unwrap() = 44;
        w.split_off_lt(&2);
    }
    assert_eq!(numbers(&map), before);
    assert_eq!(map.read().get_txid(), 2);
}

#[test]
fn commits_are_numbered() {
    let map: BptreeMap<usize, usize> = BptreeMap::new();
    assert_eq!(map.read().get_txid(), 1);
    let r = map.read();
    for i in 0..5 {
        let mut w = map.write();
        assert_eq!(w.get_txid(), i + 2);
        w.insert(i as usize, 0);
        w.commit();
        assert_eq!(map.read().get_txid(), i + 2);
    }
    assert_eq!(r.get_txid(), 1);
}

#[test]
fn only_one_writer_at_a_time() {
    let map: BptreeMap<usize, usize> = BptreeMap::new();
    let mut w = map.write();
    assert!(map.try_write().is_none());
    assert!(map.try_write().is_none());
    // Readers are not held up.
    assert!(map.read().is_empty());
    w.insert(1, 1);
    w.commit();
    {
        let w = map.try_write();
        assert!(w.is_some());
        assert_eq!(w.unwrap().get(&1), Some(&1));
    }
    assert!(map.try_write().is_some());
}

#[test]
fn each_reader_keeps_its_version() {
    let map: BptreeMap<usize, usize> = BptreeMap::new();
    let mut readers = Vec::new();
    for i in 0..20usize {
        readers.push(map.read());
        let mut w = map.write();
        for k in 0..20 {
            w.insert(k, i);
        }
        w.insert(100 + i, i);
        w.commit();
    }
    for (i, r) in readers.iter().enumerate() {
        assert!(r.verify());
        if i == 0 {
            assert!(r.is_empty());
        } else {
            assert_eq!(r.len(), 20 + i);
            assert_eq!(r.get(&5), Some(&(i - 1)));
            assert!(!r.contains_key(&(100 + i)));
        }
    }
}

#[test]
fn snapshots_show_their_transaction() {
    let map = BptreeMap::from_iter((0..30usize).map(|v| (v, v)));
    let r = map.read();
    let mut w = map.write();
    w.insert(30, 30);
    w.remove(&0);
    let a = r.to_snapshot();
    let b = w.to_snapshot();
    assert_eq!(a.len(), 30);
    assert_eq!(b.len(), 30);
    assert!(!a.is_empty() && !b.is_empty());
    assert_eq!(a.get(&0), Some(&0));
    assert_eq!(b.get(&0), None);
    assert!(!a.contains_key(&30));
    assert!(b.contains_key(&30));
    assert_eq!(a.iter(), r.iter());
    assert_eq!(a.keys(), r.keys());
    assert_eq!(a.values(), r.values());
    assert_eq!(b.iter(), w.iter());
    assert_eq!(b.keys(), w.keys());
    assert_eq!(b.values(), w.values());
    let empty: BptreeMap<usize, usize> = BptreeMap::new();
    assert!(empty.read().to_snapshot().is_empty());
}

#[test]
fn string_keys() {
    let map: BptreeMap<String, usize> = BptreeMap::new();
    let mut w = map.write();
    for (i, word) in ["pear", "apple", "fig", "quince", "plum"].iter().enumerate() {
        w.insert(word.to_string(), i);
    }
    w.commit();
    let r = map.read();
    assert_eq!(r.get(&String::from("fig")), Some(&2));
    assert_eq!(r.get(&String::from("grape")), None);
    assert_eq!(r.keys(), vec!["apple", "fig", "pear", "plum", "quince"]);
}

#[test]
fn clear_empties_the_transaction() {
    let map = BptreeMap::from_iter((0..(L_CAPACITY * 10)).map(|v| (v, v)));
    let mut w = map.write();
    w.clear();
    assert!(w.is_empty());
    assert_eq!(w.get(&3), None);
    w.insert(3, 4);
    assert_eq!(w.iter(), vec![(&3, &4)]);
    w.commit();
    assert_eq!(numbers(&map), vec![(3, 4)]);
}

#[test]
fn values_are_released_with_the_last_version() {
    let value = Arc::new(());
    let map: BptreeMap<usize, Arc<()>> = BptreeMap::new();
    let mut w = map.write();
    for i in 0..100 {
        w.insert(i, value.clone());
    }
    w.commit();
    let r = map.read();
    assert_eq!(Arc::strong_count(&value), 101);
    let mut w = map.write();
    w.clear();
    w.commit();
    assert_eq!(Arc::strong_count(&value), 101);
    std::mem::drop(r);
    assert_eq!(Arc::strong_count(&value), 1);
    std::mem::drop(map);
}

#[test]
fn agrees_with_a_plain_map() {
    let map: BptreeMap<usize, usize> = BptreeMap::new();
    let mut plain: BTreeMap<usize, usize> = BTreeMap::new();
    let mut x: usize = 12345;
    for round in 0..60 {
        let mut w = map.write();
        for _ in 0..100 {
            x = (x * 1103515245 + 12345) % 2147483648;
            let k = (x >> 8) % 400;
            if (x >> 20) % 5 < 2 + (round / 10) % 3 {
                assert_eq!(w.remove(&k), plain.remove(&k));
            } else {
                assert_eq!(w.insert(k, x), plain.insert(k, x));
            }
            assert_eq!(w.len(), plain.len());
        }
        assert!(w.verify());
        let before = map.read();
        assert!(before.verify());
        assert_eq!(w.iter(), plain.iter().collect::<Vec<_>>());
        w.commit();
        assert_eq!(map.read().iter(), plain.iter().collect::<Vec<_>>());
    }
    let mut w = map.write();
    w.split_off_lt(&200);
    assert!(w.verify());
    assert_eq!(w.iter(), plain.range(200..).collect::<Vec<_>>());
    let keys: Vec<usize> = w.keys().into_iter().copied().collect();
    for k in keys.iter().rev() {
        assert!(w.remove(k).is_some());
        assert!(w.verify());
    }
    assert!(w.is_empty());
}

#[test]
fn ascending_descending_and_mixed_inserts_stay_in_order() {
    let n: usize = 2000;
    let up = BptreeMap::from_iter((0..n).map(|v| (v, v)));
    let down = BptreeMap::from_iter((0..n).rev().map(|v| (v, v)));
    let mixed = BptreeMap::from_iter((0..n).map(|v| (v * 7919 % n, v * 7919 % n)));
    assert!(up.read().verify() && down.read().verify() && mixed.read().verify());
    assert_eq!(numbers(&up), numbers(&down));
    assert_eq!(numbers(&up), numbers(&mixed));
}

#[test]
fn a_map_can_be_shared_between_threads() {
    fn shareable<T: Send + Sync>(_: &T) {}
    let map: BptreeMap<usize, String> = BptreeMap::new();
    shareable(&map);
}

#[derive(Clone, Debug)]
struct Word(String);

impl Word {
    fn folded(&self) -> String {
        self.0.to_lowercase()
    }
}

impl PartialEq for Word {
    fn eq(&self, other: &Self) -> bool {
        self.folded() == other.folded()
    }
}

impl Eq for Word {}

impl PartialOrd for Word {
    fn partial_cmp(&self, other: &Self) -> Option<std::cmp::Ordering> {
        Some(self.cmp(other))
    }
}

impl Ord for Word {
    fn cmp(&self, other: &Self) -> std::cmp::Ordering {
        self.folded().cmp(&other.folded())
    }
}

#[test]
fn keys_that_compare_equal_are_one_key() {
    let map: BptreeMap<Word, usize> = BptreeMap::new();
    let mut w = map.write();
    assert_eq!(w.insert(Word(String::from("Fig")), 1), None);
    assert_eq!(w.insert(Word(String::from("FIG")), 2), Some(1));
    assert_eq!(w.len(), 1);
    assert_eq!(w.get(&Word(String::from("fig"))), Some(&2));
    // The entry keeps the key that it was made with.
    assert_eq!(w.keys()[0].0, "Fig");
    assert_eq!(w.remove(&Word(String::from("fIG"))), Some(2));
    assert!(w.is_empty());
}

#[test]
fn the_next_writer_starts_from_the_commit() {
    let map: BptreeMap<usize, usize> = BptreeMap::new();
    let mut w = map.write();
    w.extend((0..10usize).map(|v| (v, v)));
    w.commit();
    let mut w = map.write();
    assert_eq!(w.len(), 10);
    w.extend((10..20usize).map(|v| (v, v)));
    w.commit();
    assert_eq!(numbers(&map), (0..20).map(|v| (v, v)).collect::<Vec<(usize, usize)>>());
}

#[test]
fn from_iter_is_new_extend_and_commit() {
    for n in [0usize, 1, 8, 300] {
        let made = BptreeMap::from_iter((0..n).map(|v| (v * 13 % 50, v)));
        let filled: BptreeMap<usize, usize> = BptreeMap::new();
        let mut w = filled.write();
        w.extend((0..n).map(|v| (v * 13 % 50, v)));
        w.commit();
        assert_eq!(numbers(&made), numbers(&filled));
        assert_eq!(made.read().get_txid(), filled.read().get_txid());
    }
}

#[test]
fn a_commit_without_changes_keeps_the_contents() {
    let map = BptreeMap::from_iter((0..25usize).map(|v| (v, v)));
    let before = numbers(&map);
    map.write().commit();
    assert_eq!(numbers(&map), before);
    assert_eq!(map.read().get_txid(), 3);
    // The writer's place is free again.
    assert!(map.try_write().is_some());
}

#[test]
fn an_open_writer_does_not_show_until_it_commits() {
    let map = BptreeMap::from_iter((0..25usize).map(|v| (v, v)));
    let early = map.read();
    let mut w = map.write();
    w.clear();
    w.insert(7, 70);
    assert_eq!(map.read().iter(), early.iter());
    w.commit();
    assert_eq!(numbers(&map), vec![(7, 70)]);
    assert_eq!(early.len(), 25);
}

#[test]
fn a_second_remove_finds_nothing() {
    let map = BptreeMap::from_iter((0..25usize).map(|v| (v, v)));
    let mut w = map.write();
    assert_eq!(w.insert(100, 5), None);
    assert_eq!(w.remove(&100), Some(5));
    assert_eq!(w.remove(&100), None);
    assert_eq!(w.len(), 25);
}

#[test]
fn a_commit_opens_transactions_that_perceive_it() {
    let map = BptreeMap::from_iter((0..25usize).map(|v| (v, v)));
    let early = map.read();
    let mut w = map.write();
    w.insert(100, 1);
    let committed = w.commit();
    assert_eq!(committed.read().get(&100), Some(&1));
    assert_eq!(committed.read().get_txid(), map.read().get_txid());
    let mut w = committed.write();
    assert_eq!(w.get(&100), Some(&1));
    assert!(map.try_write().is_none());
    w.remove(&100);
    w.insert(101, 2);
    w.commit();
    // A later commit shows too.
    assert_eq!(committed.read().get(&100), None);
    assert_eq!(committed.read().get(&101), Some(&2));
    assert_eq!(early.get(&100), None);
    assert_eq!(early.get(&101), None);
}

#[test]
fn values_are_released_if_the_middle_reader_goes_first() {
    let value = Arc::new(0usize);
    let other = Arc::new(1usize);
    let map: BptreeMap<usize, Arc<usize>> = BptreeMap::new();
    let n = L_CAPACITY * 2;
    let mut w = map.write();
    w.extend((0..n).map(|v| (v * 2, value.clone())));
    w.commit();
    let a = map.read();

    let mut w = map.write();
    w.insert(1, value.clone());
    w.commit();
    let b = map.read();

    let mut w = map.write();
    w.insert(1, other.clone());
    w.commit();
    let c = map.read();

    // The versions share the values.
    assert_eq!(Arc::strong_count(&value), n + 2);
    assert_eq!(Arc::strong_count(&other), 2);
    std::mem::drop(b);
    // Only the middle version had the value that was replaced.
    assert_eq!(Arc::strong_count(&value), n + 1);
    assert!(a.verify());
    assert!(c.verify());
    assert_eq!(a.len(), n);
    assert_eq!(c.get(&1), Some(&other));
    std::mem::drop(a);
    std::mem::drop(c);
    assert_eq!(Arc::strong_count(&value), n + 1);
    std::mem::drop(map);
    assert_eq!(Arc::strong_count(&value), 1);
    assert_eq!(Arc::strong_count(&other), 1);
}
