use concread::bptree::{BptreeMap, L_CAPACITY};
use rand::seq::SliceRandom;

#[test]
fn test_bptree2_map_basic_write() {
    let bptree: BptreeMap<usize, usize> = BptreeMap::new();
    {
        let mut bpwrite = bptree.write();
        // We should be able to insert.
        bpwrite.insert(0, 0);
        bpwrite.insert(1, 1);
        assert!(bpwrite.get(&0) == Some(&0));
        assert!(bpwrite.get(&1) == Some(&1));
        bpwrite.insert(2, 2);
        bpwrite.commit();
    }
    {
        // Do a clear, but roll it back.
        let mut bpwrite = bptree.write();
        bpwrite.clear();
        // DO NOT commit, this triggers the rollback.
    }
    {
        let bpwrite = bptree.write();
        assert!(bpwrite.get(&0) == Some(&0));
        assert!(bpwrite.get(&1) == Some(&1));
    }
    std::mem::drop(bptree);
}

#[test]
fn test_bptree2_map_cursed_get_mut() {
    let bptree: BptreeMap<usize, usize> = BptreeMap::new();
    {
        let mut w = bptree.write();
        w.insert(0, 0);
        w.commit();
    }
    let r1 = bptree.read();
    {
        let mut w = bptree.write();
        let cursed_zone = w.get_mut(&0).unwrap();
        *cursed_zone = 1;
        w.commit();
    }
    let r2 = bptree.read();
    assert!(r1.get(&0) == Some(&0));
    assert!(r2.get(&0) == Some(&1));

    std::mem::drop(r1);
    std::mem::drop(r2);
    std::mem::drop(bptree);
}

#[test]
fn test_bptree2_map_from_iter_1() {
    let ins: Vec<usize> = (0..(L_CAPACITY << 4)).collect();

    let map = BptreeMap::from_iter(ins.into_iter().map(|v| (v, v)));

    {
        let w = map.write();
        assert!(w.verify());
    }
    std::mem::drop(map);
}

#[test]
fn test_bptree2_map_from_iter_2() {
    let mut rng = rand::thread_rng();
    let mut ins: Vec<usize> = (0..(L_CAPACITY << 4)).collect();
    ins.shuffle(&mut rng);

    let map = BptreeMap::from_iter(ins.into_iter().map(|v| (v, v)));

    {
        let w = map.write();
        assert!(w.verify());
        assert!(w.verify());
    }

    std::mem::drop(map);
}

fn bptree_map_basic_concurrency(lower: usize, upper: usize) {
    // Create a map
    let map = BptreeMap::new();

    // add values
    {
        let mut w = map.write();
        w.extend((0..lower).map(|v| (v, v)));
        w.commit();
    }

    // read
    let r = map.read();
    assert!(r.len() == lower);
    for i in 0..lower {
        assert!(r.contains_key(&i))
    }

    // Check a second write doesn't interfere
    {
        let mut w = map.write();
        w.extend((lower..upper).map(|v| (v, v)));
        w.commit();
    }

    assert!(r.len() == lower);

    // But a new write can see
    let r2 = map.read();
    assert!(r2.len() == upper);
    for i in 0..upper {
        assert!(r2.contains_key(&i))
    }

    // Now drain the tree, and the reader should be unaffected.
    {
        let mut w = map.write();
        for i in 0..upper {
            assert!(w.remove(&i).is_some())
        }
        w.commit();
    }

    // All consistent!
    assert!(r.len() == lower);
    assert!(r2.len() == upper);
    for i in 0..upper {
        assert!(r2.contains_key(&i))
    }

    let r3 = map.read();
    assert!(r3.len() == 0);

    std::mem::drop(r);
    std::mem::drop(r2);
    std::mem::drop(r3);

    std::mem::drop(map);
}

#[test]
fn test_bptree2_map_acb_order() {
    // Need to ensure that txns are dropped in order.

    // Add data, enough to cause a split. All data should be *2
    let map = BptreeMap::new();
    // add values
    {
        let mut w = map.write();
        w.extend((0..(L_CAPACITY * 2)).map(|v| (v * 2, v * 2)));
        w.commit();
    }
    let ro_txn_a = map.read();

    // New write, add 1 val
    {
        let mut w = map.write();
        w.insert(1, 1);
        w.commit();
    }

    let ro_txn_b = map.read();
    // ro_txn_b now owns nodes from a

    // New write, update a value
    {
        let mut w = map.write();
        w.insert(1, 10001);
        w.commit();
    }

    let ro_txn_c = map.read();
    // ro_txn_c
    // Drop ro_txn_b
    assert!(ro_txn_b.verify());
    std::mem::drop(ro_txn_b);
    // Are both still valid?
    assert!(ro_txn_a.verify());
    assert!(ro_txn_c.verify());
    // Drop remaining
    std::mem::drop(ro_txn_a);
    std::mem::drop(ro_txn_c);
    std::mem::drop(map);
}

#[test]
fn test_bptree2_map_weird_txn_behaviour() {
    let map: BptreeMap<usize, usize> = BptreeMap::new();

    let mut wr = map.write();
    let rd = map.read();

    wr.insert(1, 1);
    assert!(rd.get(&1) == None);
    wr.commit();
    assert!(rd.get(&1) == None);
}

#[test]
fn test_bptree2_map_basic_concurrency_small() {
    bptree_map_basic_concurrency(100, 200)
}

#[test]
fn test_bptree2_map_basic_concurrency_large() {
    bptree_map_basic_concurrency(10_000, 20_000)
}
