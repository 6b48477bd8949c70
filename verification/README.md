# concread

`BptreeMap` is an ordered map based on a B+Tree that readers can use while a writer works.

- A reader gets a version of the map and keeps it for the life of its transaction.
- There is one writer at a time. It works on a share of the current version and copies the
  nodes that it changes. `commit()` makes its work the next version; dropping the
  transaction rolls it back.

```rust
let map: BptreeMap<usize, usize> = BptreeMap::new();
let mut w = map.write();
w.insert(1, 10);
w.commit();
let r = map.read();
assert!(r.get(&1) == Some(&10));
```

The crate is verified with Verus. In `src/bptree`:

| file        | what it holds                                                       |
|-------------|---------------------------------------------------------------------|
| `mod.rs`    | the map, its transactions and snapshots                             |
| `order.rs`  | the order of the keys                                               |
| `model.rs`  | the contents of a map as a sorted sequence of entries               |
| `node.rs`   | the nodes of the tree and the operations on subtrees                |
| `shape.rs`  | lemmas on how subtrees are put together                             |
| `tree.rs`   | a whole tree and the number of its entries                          |
| `cursor.rs` | committed versions, and the cursors that read and write them        |
| `lock.rs`   | the two locks of a map, which come from `parking_lot`               |
| `laws.rs`   | what holds of the map as a whole                                    |

Contracts speak of the entries of a transaction as a sequence in key order (`txn@`), and of
the contents of all versions up to a given one (`versions()`, `base()`). They ask that the
`Ord` of the key type is a total order (`order::total_order`).

Trusted are the calls into `parking_lot` in `lock.rs`, `Arc::make_mut` in `node.rs` and
`Arc::unwrap_or_clone` in `tree.rs`. Which version is current when a transaction starts
rests on the other threads, so no contract says which one it is. `commit()` returns a
`Committed`; transactions that are opened through it are known to perceive the commit.
