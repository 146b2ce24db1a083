use mpt_storage::db_manager::{DbImage, DeltaDbManager, SINGLE_MPT_ID};
use mpt_storage::delta_db::{DbRow, DeltaDb};
use mpt_storage::epoch_roots::{EpochId, EpochRoot, EpochRoots};
use mpt_storage::errors::ErrorKind;
use mpt_storage::nibbles::to_key_path;
use mpt_storage::node::{hash_bytes, NodeKind, TrieNode};
use mpt_storage::cache_algorithm::{CacheAlgorithm, DeltaMptsCacheAlgorithm, Lru};
use mpt_storage::node_memory_manager::{NodeMemoryManager, PoolLimits};
use mpt_storage::single_mpt_db_manager::{OpenableOnDemandOpenDeltaDbTrait, SingleMptDbManager};
use mpt_storage::single_mpt_storage_manager::SingleMptStorageManager;
use mpt_storage::store_file::{decode_records, decode_rows, encode_records, encode_rows};

fn empty_manager() -> SingleMptStorageManager {
    SingleMptStorageManager::new_arc(DeltaDbManager::new(Vec::new())).unwrap()
}

fn small_pool() -> SingleMptStorageManager {
    let limits = PoolLimits { max_resident: 4, max_bookkeeping: 8, working_set: 2, soft_limit: 4 };
    assert!(limits.is_valid());
    SingleMptStorageManager::with_limits(DeltaDbManager::new(Vec::new()), limits).unwrap()
}

fn epoch(n: u64) -> EpochId {
    EpochId::new(n, 0)
}

fn key(i: u32) -> Vec<u8> {
    format!("key-{}", i).into_bytes()
}

fn value(i: u32) -> Vec<u8> {
    format!("value-{}", i * 7).into_bytes()
}

#[test]
fn scenario_two_epochs() {
    let mut manager = empty_manager();
    let mut genesis = manager.get_state_for_genesis().unwrap();
    genesis.set(&mut manager, b"A", vec![1]);
    let root0 = genesis.commit(&mut manager, epoch(0)).unwrap();
    assert!(root0.is_some());

    let mut next = manager.get_state_by_epoch(epoch(0)).unwrap().unwrap();
    next.set(&mut manager, b"A", vec![2]);
    next.set(&mut manager, b"B", vec![3]);
    let root1 = next.commit(&mut manager, epoch(1)).unwrap();
    assert!(root1.is_some());
    assert_ne!(root0, root1);

    let at0 = manager.get_state_by_epoch(epoch(0)).unwrap().unwrap();
    assert_eq!(at0.get(&mut manager, b"A"), Some(vec![1]));
    assert_eq!(at0.get(&mut manager, b"B"), None);

    let at1 = manager.get_state_by_epoch(epoch(1)).unwrap().unwrap();
    assert_eq!(at1.get(&mut manager, b"A"), Some(vec![2]));
    assert_eq!(at1.get(&mut manager, b"B"), Some(vec![3]));

    assert!(manager.get_state_by_epoch(epoch(2)).unwrap().is_none());
}

#[test]
fn round_trip_reads_last_written_value() {
    let mut manager = empty_manager();
    let mut state = manager.get_state_for_genesis().unwrap();
    for i in 0..200u32 {
        state.set(&mut manager, &key(i), value(i));
    }
    for i in 0..50u32 {
        state.set(&mut manager, &key(i), value(i + 1000));
    }
    state.commit(&mut manager, epoch(5)).unwrap();
    let view = manager.get_state_by_epoch(epoch(5)).unwrap().unwrap();
    for i in 0..200u32 {
        let expected = if i < 50 { value(i + 1000) } else { value(i) };
        assert_eq!(view.get(&mut manager, &key(i)), Some(expected));
    }
    assert_eq!(view.get(&mut manager, b"key-"), None);
    assert_eq!(view.get(&mut manager, b"key-2000"), None);
    assert_eq!(view.get(&mut manager, b""), None);
}

#[test]
fn version_isolation() {
    let mut manager = empty_manager();
    let mut state = manager.get_state_for_genesis().unwrap();
    state.set(&mut manager, b"K", b"old".to_vec());
    state.set(&mut manager, b"K2", b"x".to_vec());
    state.commit(&mut manager, epoch(7)).unwrap();
    let mut next = manager.get_state_by_epoch(epoch(7)).unwrap().unwrap();
    next.set(&mut manager, b"K", b"new".to_vec());
    assert_eq!(next.delete(&mut manager, b"K2"), Some(b"x".to_vec()));
    next.commit(&mut manager, epoch(8)).unwrap();
    let old = manager.get_state_by_epoch(epoch(7)).unwrap().unwrap();
    assert_eq!(old.get(&mut manager, b"K"), Some(b"old".to_vec()));
    assert_eq!(old.get(&mut manager, b"K2"), Some(b"x".to_vec()));
    let new = manager.get_state_by_epoch(epoch(8)).unwrap().unwrap();
    assert_eq!(new.get(&mut manager, b"K"), Some(b"new".to_vec()));
    assert_eq!(new.get(&mut manager, b"K2"), None);
}

#[test]
fn uncommitted_changes_are_seen_by_their_state_only() {
    let mut manager = empty_manager();
    let mut state = manager.get_state_for_genesis().unwrap();
    state.set(&mut manager, b"a", vec![1]);
    state.commit(&mut manager, epoch(1)).unwrap();
    let mut writer = manager.get_state_by_epoch(epoch(1)).unwrap().unwrap();
    assert!(!writer.is_dirty());
    writer.set(&mut manager, b"a", vec![9]);
    writer.set(&mut manager, b"b", vec![8]);
    assert!(writer.is_dirty());
    assert_eq!(writer.get(&mut manager, b"a"), Some(vec![9]));
    assert_eq!(writer.get(&mut manager, b"b"), Some(vec![8]));
    let reader = manager.get_state_by_epoch(epoch(1)).unwrap().unwrap();
    assert_eq!(reader.get(&mut manager, b"a"), Some(vec![1]));
    assert_eq!(reader.get(&mut manager, b"b"), None);
    // the writer is abandoned: nothing of it is recorded
    drop(writer);
    assert!(manager.get_state_by_epoch(epoch(2)).unwrap().is_none());
}

#[test]
fn unknown_epoch_is_absent_not_an_error() {
    let manager = empty_manager();
    let r = manager.get_state_by_epoch(epoch(0));
    assert!(matches!(r, Ok(None)));
    let r = manager.get_state_by_epoch(EpochId::new(u64::MAX, u64::MAX));
    assert!(matches!(r, Ok(None)));
}

#[test]
fn empty_commit_records_the_empty_root() {
    let mut manager = empty_manager();
    let state = manager.get_state_for_genesis().unwrap();
    assert_eq!(state.commit(&mut manager, epoch(0)), Ok(None));
    assert!(manager.is_committed(epoch(0)));
    // the epoch is there: its state holds nothing
    let mut view = manager.get_state_by_epoch(epoch(0)).unwrap().unwrap();
    assert!(!view.is_dirty());
    assert_eq!(view.get(&mut manager, b"k"), None);
    assert_eq!(view.get(&mut manager, b""), None);
    // and cannot be committed again
    let again = manager.get_state_for_genesis().unwrap();
    assert_eq!(again.commit(&mut manager, epoch(0)), Err(ErrorKind::EpochAlreadyCommitted));
    // the next epoch is built on it
    view.set(&mut manager, b"k", vec![7]);
    assert!(view.is_dirty());
    view.commit(&mut manager, epoch(1)).unwrap();
    let next = manager.get_state_by_epoch(epoch(1)).unwrap().unwrap();
    assert_eq!(next.get(&mut manager, b"k"), Some(vec![7]));
    let before = manager.get_state_by_epoch(epoch(0)).unwrap().unwrap();
    assert_eq!(before.get(&mut manager, b"k"), None);
    // an epoch without record is absent
    assert!(manager.get_state_by_epoch(epoch(2)).unwrap().is_none());
}

#[test]
fn unchanged_state_commits_under_its_root() {
    let mut manager = empty_manager();
    let mut state = manager.get_state_for_genesis().unwrap();
    state.set(&mut manager, b"k", vec![1]);
    let root = state.commit(&mut manager, epoch(0)).unwrap();
    let rows = manager.row_count();
    let same = manager.get_state_by_epoch(epoch(0)).unwrap().unwrap();
    assert_eq!(same.commit(&mut manager, epoch(1)), Ok(root));
    assert_eq!(manager.row_count(), rows);
    // the same content written anew is the same rows
    let mut anew = manager.get_state_for_genesis().unwrap();
    anew.set(&mut manager, b"k", vec![1]);
    assert_eq!(anew.persist(&mut manager), Ok(root));
    assert_eq!(manager.row_count(), rows);
}

#[test]
fn committed_epoch_is_immutable() {
    let mut manager = empty_manager();
    let mut state = manager.get_state_for_genesis().unwrap();
    state.set(&mut manager, b"k", vec![1]);
    state.commit(&mut manager, epoch(3)).unwrap();
    let mut other = manager.get_state_for_genesis().unwrap();
    other.set(&mut manager, b"k", vec![2]);
    assert_eq!(other.commit(&mut manager, epoch(3)), Err(ErrorKind::EpochAlreadyCommitted));
    let view = manager.get_state_by_epoch(epoch(3)).unwrap().unwrap();
    assert_eq!(view.get(&mut manager, b"k"), Some(vec![1]));
}

#[test]
fn eviction_keeps_content() {
    let mut manager = small_pool();
    let mut state = manager.get_state_for_genesis().unwrap();
    for i in 0..300u32 {
        state.set(&mut manager, &key(i), value(i));
    }
    state.commit(&mut manager, epoch(1)).unwrap();
    let view = manager.get_state_by_epoch(epoch(1)).unwrap().unwrap();
    for round in 0..3 {
        for i in 0..300u32 {
            assert_eq!(view.get(&mut manager, &key(i)), Some(value(i)), "round {}", round);
            assert!(manager.resident_nodes() <= 4);
        }
    }
    assert!(manager.resident_nodes() >= 1);
    assert!(manager.size_of() > 0);
    // writes over a pool that keeps evicting
    let mut next = manager.get_state_by_epoch(epoch(1)).unwrap().unwrap();
    for i in 0..300u32 {
        if i % 3 == 0 {
            assert_eq!(next.delete(&mut manager, &key(i)), Some(value(i)));
        } else if i % 3 == 1 {
            next.set(&mut manager, &key(i), value(i + 1));
        }
    }
    next.commit(&mut manager, epoch(2)).unwrap();
    let view2 = manager.get_state_by_epoch(epoch(2)).unwrap().unwrap();
    for i in 0..300u32 {
        let expected = match i % 3 {
            0 => None,
            1 => Some(value(i + 1)),
            _ => Some(value(i)),
        };
        assert_eq!(view2.get(&mut manager, &key(i)), expected);
        assert_eq!(view.get(&mut manager, &key(i)), Some(value(i)));
    }
}

#[test]
fn pool_reports_resident_bytes() {
    let mut manager = empty_manager();
    assert_eq!(manager.size_of(), 0);
    assert_eq!(manager.resident_nodes(), 0);
    let mut state = manager.get_state_for_genesis().unwrap();
    state.set(&mut manager, b"k", vec![1, 2, 3]);
    state.commit(&mut manager, epoch(0)).unwrap();
    let view = manager.get_state_by_epoch(epoch(0)).unwrap().unwrap();
    assert_eq!(view.get(&mut manager, b"k"), Some(vec![1, 2, 3]));
    assert_eq!(manager.resident_nodes(), 1);
    // a leaf: discriminator, path length, two nibbles, value flag, value
    // length, three bytes of value, size
    assert_eq!(manager.size_of(), 1 + 8 + 2 + 1 + 8 + 3 + 8);
}

#[test]
fn delete_merges_and_removes() {
    let mut manager = empty_manager();
    let mut state = manager.get_state_for_genesis().unwrap();
    state.set(&mut manager, b"abc", vec![1]);
    state.set(&mut manager, b"abd", vec![2]);
    state.set(&mut manager, b"ab", vec![3]);
    assert_eq!(state.delete(&mut manager, b"zzz"), None);
    assert_eq!(state.delete(&mut manager, b"a"), None);
    assert_eq!(state.delete(&mut manager, b"abd"), Some(vec![2]));
    assert_eq!(state.get(&mut manager, b"abc"), Some(vec![1]));
    assert_eq!(state.get(&mut manager, b"ab"), Some(vec![3]));
    assert_eq!(state.delete(&mut manager, b"ab"), Some(vec![3]));
    assert_eq!(state.get(&mut manager, b"abc"), Some(vec![1]));
    let root_a = state.commit(&mut manager, epoch(1)).unwrap();
    // the same content built directly has the same root
    let mut direct = manager.get_state_for_genesis().unwrap();
    direct.set(&mut manager, b"abc", vec![1]);
    let root_b = direct.commit(&mut manager, epoch(2)).unwrap();
    assert_eq!(root_a, root_b);
    // deleting the last key leaves nothing
    let mut last = manager.get_state_by_epoch(epoch(1)).unwrap().unwrap();
    assert_eq!(last.delete(&mut manager, b"abc"), Some(vec![1]));
    assert_eq!(last.commit(&mut manager, epoch(3)), Ok(None));
}

#[test]
fn root_does_not_depend_on_insertion_order() {
    let mut manager = empty_manager();
    let mut forward = manager.get_state_for_genesis().unwrap();
    for i in 0..64u32 {
        forward.set(&mut manager, &key(i), value(i));
    }
    let a = forward.commit(&mut manager, epoch(1)).unwrap();
    let mut backward = manager.get_state_for_genesis().unwrap();
    for i in (0..64u32).rev() {
        backward.set(&mut manager, &key(i), value(i));
    }
    backward.set(&mut manager, b"extra", vec![0]);
    backward.delete(&mut manager, b"extra");
    let b = backward.commit(&mut manager, epoch(2)).unwrap();
    assert!(a.is_some());
    assert_eq!(a, b);
}

#[test]
fn empty_key_and_empty_value() {
    let mut manager = empty_manager();
    let mut state = manager.get_state_for_genesis().unwrap();
    state.set(&mut manager, b"", vec![]);
    state.set(&mut manager, b"\x00", vec![0]);
    assert_eq!(state.get(&mut manager, b""), Some(vec![]));
    assert_eq!(state.get(&mut manager, b"\x00"), Some(vec![0]));
    assert_eq!(state.get(&mut manager, b"\x00\x00"), None);
    state.commit(&mut manager, epoch(0)).unwrap();
    let view = manager.get_state_by_epoch(epoch(0)).unwrap().unwrap();
    assert_eq!(view.get(&mut manager, b""), Some(vec![]));
    assert_eq!(view.get(&mut manager, b"\x00"), Some(vec![0]));
}

#[test]
fn rollback_removes_epochs_from_target() {
    let mut manager = empty_manager();
    for e in 0..5u64 {
        let mut state = manager.get_state_for_genesis().unwrap();
        state.set(&mut manager, b"e", vec![e as u8]);
        state.commit(&mut manager, epoch(e)).unwrap();
    }
    manager.rollback(epoch(3));
    for e in 0..3u64 {
        let view = manager.get_state_by_epoch(epoch(e)).unwrap().unwrap();
        assert_eq!(view.get(&mut manager, b"e"), Some(vec![e as u8]));
    }
    assert!(manager.get_state_by_epoch(epoch(3)).unwrap().is_none());
    assert!(manager.get_state_by_epoch(epoch(4)).unwrap().is_none());
    // a removed epoch can be committed again
    let mut state = manager.get_state_for_genesis().unwrap();
    state.set(&mut manager, b"e", vec![33]);
    state.commit(&mut manager, epoch(3)).unwrap();
    let view = manager.get_state_by_epoch(epoch(3)).unwrap().unwrap();
    assert_eq!(view.get(&mut manager, b"e"), Some(vec![33]));
}

#[test]
fn forks_of_one_height_are_told_apart() {
    let mut manager = empty_manager();
    let mut a = manager.get_state_for_genesis().unwrap();
    a.set(&mut manager, b"k", vec![1]);
    a.commit(&mut manager, EpochId::new(4, 2)).unwrap();
    let mut b = manager.get_state_for_genesis().unwrap();
    b.set(&mut manager, b"k", vec![2]);
    b.commit(&mut manager, EpochId::new(4, 1)).unwrap();
    let va = manager.get_state_by_epoch(EpochId::new(4, 2)).unwrap().unwrap();
    let vb = manager.get_state_by_epoch(EpochId::new(4, 1)).unwrap().unwrap();
    assert_eq!(va.get(&mut manager, b"k"), Some(vec![1]));
    assert_eq!(vb.get(&mut manager, b"k"), Some(vec![2]));
    assert!(manager.get_state_by_epoch(EpochId::new(4, 0)).unwrap().is_none());
    // a rollback to the higher fork keeps the lower one
    manager.rollback(EpochId::new(4, 2));
    assert!(manager.get_state_by_epoch(EpochId::new(4, 2)).unwrap().is_none());
    assert!(manager.get_state_by_epoch(EpochId::new(4, 1)).unwrap().is_some());
}

#[test]
fn open_is_idempotent() {
    let mut db_manager = SingleMptDbManager::new(DeltaDbManager::new(Vec::new()));
    assert!(!db_manager.is_open());
    assert_eq!(db_manager.physical_opens(), 0);
    let mut handles = Vec::new();
    for _ in 0..10 {
        handles.push(db_manager.open(SINGLE_MPT_ID).unwrap());
    }
    assert_eq!(db_manager.physical_opens(), 1);
    assert!(db_manager.is_open());
    for h in &handles {
        assert_eq!(h.inner, handles[0].inner);
        assert_eq!(h.inner, Some(1));
        assert_eq!(h.lru, None);
        assert!(h.is_pinned());
        assert_eq!(h.mpt_id, 0);
    }
}

#[test]
fn other_logical_ids_do_not_exist() {
    let mut db_manager = SingleMptDbManager::new(DeltaDbManager::new(Vec::new()));
    assert!(matches!(db_manager.open(1), Err(ErrorKind::DbNotExist)));
    assert!(matches!(db_manager.open(u16::MAX), Err(ErrorKind::DbNotExist)));
    assert_eq!(db_manager.physical_opens(), 0);
    db_manager.open(0).unwrap();
    assert!(matches!(db_manager.open(1), Err(ErrorKind::DbNotExist)));
    assert!(matches!(db_manager.open(7), Err(ErrorKind::DbNotExist)));
    assert_eq!(db_manager.physical_opens(), 1);
}

#[test]
fn store_is_written_out_and_read_again() {
    let mut manager = empty_manager();
    let mut state = manager.get_state_for_genesis().unwrap();
    for i in 0..40u32 {
        state.set(&mut manager, &key(i), value(i));
    }
    state.commit(&mut manager, epoch(1)).unwrap();
    let written = manager.row_count();
    let mut next = manager.get_state_by_epoch(epoch(1)).unwrap().unwrap();
    next.set(&mut manager, &key(3), b"changed".to_vec());
    next.commit(&mut manager, epoch(2)).unwrap();
    let later = manager.rows_since(written);
    assert_eq!(later.len(), manager.row_count() - written);
    assert!(!later.is_empty());

    let image = manager.export();
    assert_eq!(image.mpt_id, SINGLE_MPT_ID);
    assert_eq!(image.rows.len(), manager.row_count());
    assert_eq!(image.roots.len(), 2);
    for row in &image.rows {
        assert_eq!(hash_bytes(&row.value), row.key);
    }
    let mut reopened = SingleMptStorageManager::new_arc(DeltaDbManager::new(vec![image])).unwrap();
    let v1 = reopened.get_state_by_epoch(epoch(1)).unwrap().unwrap();
    let v2 = reopened.get_state_by_epoch(epoch(2)).unwrap().unwrap();
    for i in 0..40u32 {
        assert_eq!(v1.get(&mut reopened, &key(i)), Some(value(i)));
        let expected = if i == 3 { b"changed".to_vec() } else { value(i) };
        assert_eq!(v2.get(&mut reopened, &key(i)), Some(expected));
    }
}

#[test]
fn corrupt_store_is_refused() {
    let mut manager = empty_manager();
    let mut state = manager.get_state_for_genesis().unwrap();
    state.set(&mut manager, b"ab", vec![1]);
    state.set(&mut manager, b"cd", vec![2]);
    state.commit(&mut manager, epoch(1)).unwrap();
    let good = manager.export();
    assert!(good.rows.len() >= 3);

    let reopen = |rows: Vec<DbRow>, roots: Vec<EpochRoot>| {
        SingleMptStorageManager::new_arc(DeltaDbManager::new(vec![DbImage {
            mpt_id: SINGLE_MPT_ID,
            rows,
            roots,
        }]))
    };
    let copy = |image: &DbImage| -> (Vec<DbRow>, Vec<EpochRoot>) {
        (
            image.rows.iter().map(|r| DbRow { key: r.key, value: r.value.clone() }).collect(),
            image.roots.clone(),
        )
    };

    let (rows, roots) = copy(&good);
    assert!(reopen(rows, roots).is_ok());

    // a row whose bytes were changed
    let (mut rows, roots) = copy(&good);
    let last = rows[0].value.len() - 9;
    rows[0].value[last] ^= 1;
    assert!(matches!(reopen(rows, roots), Err(ErrorKind::Corrupt)));

    // a row under a key that is not its hash
    let (mut rows, roots) = copy(&good);
    rows[0].key ^= 1;
    assert!(matches!(reopen(rows, roots), Err(ErrorKind::Corrupt)));

    // a row that is missing: a child or the root is not there
    let (mut rows, roots) = copy(&good);
    rows.remove(0);
    assert!(matches!(reopen(rows, roots), Err(ErrorKind::Corrupt)));

    // a row twice
    let (mut rows, roots) = copy(&good);
    let dup = DbRow { key: rows[0].key, value: rows[0].value.clone() };
    rows.push(dup);
    assert!(matches!(reopen(rows, roots), Err(ErrorKind::Corrupt)));

    // a root that the store does not hold
    let (rows, mut roots) = copy(&good);
    roots.push(EpochRoot { epoch: epoch(9), root: Some(12345) });
    assert!(matches!(reopen(rows, roots), Err(ErrorKind::Corrupt)));

    // epochs out of order
    let (rows, mut roots) = copy(&good);
    roots.insert(0, EpochRoot { epoch: epoch(9), root: None });
    assert!(matches!(reopen(rows, roots), Err(ErrorKind::Corrupt)));

    // bytes that are no node
    let junk = vec![7u8; 30];
    let rows = vec![DbRow { key: hash_bytes(&junk), value: junk }];
    assert!(matches!(reopen(rows, Vec::new()), Err(ErrorKind::Corrupt)));
}

#[test]
fn node_bytes_round_trip() {
    let path = to_key_path(b"\x12\x34");
    assert_eq!(path, vec![1, 2, 3, 4]);
    let mut children = vec![None; 16];
    children[5] = Some(0xdead_beef_u64);
    children[15] = Some(1);
    let (node, bytes) = TrieNode::new(path.clone(), Some(vec![9, 9]), children.clone());
    assert_eq!(node.kind(), NodeKind::Extension);
    assert_eq!(node.size(), bytes.len() as u64);
    assert_eq!(bytes.len(), 1 + 8 + 4 + 144 + 1 + 8 + 2 + 8);
    assert_eq!(bytes[0], 2);
    assert_eq!(&bytes[1..9], &4u64.to_le_bytes());
    assert_eq!(&bytes[9..13], &[1, 2, 3, 4]);
    assert_eq!(bytes[13 + 9 * 5], 1);
    assert_eq!(&bytes[13 + 9 * 5 + 1..13 + 9 * 5 + 9], &0xdead_beef_u64.to_le_bytes());
    assert_eq!(bytes[13], 0);
    let back = TrieNode::decode(&bytes).unwrap();
    assert_eq!(back.path(), &path);
    assert_eq!(back.value(), &Some(vec![9, 9]));
    for i in 0..16 {
        assert_eq!(back.child(i), children[i]);
    }
    assert_eq!(back.encode(), bytes);

    let (leaf, leaf_bytes) = TrieNode::new(vec![], None, vec![None; 16]);
    assert_eq!(leaf.kind(), NodeKind::Leaf);
    assert_eq!(leaf_bytes.len(), 18);
    assert!(TrieNode::decode(&leaf_bytes).is_some());
    let (branch, _) = TrieNode::new(vec![], None, children);
    assert_eq!(branch.kind(), NodeKind::Branch);

    // bytes that are cut short, or go on, are no node
    assert!(TrieNode::decode(&bytes[..bytes.len() - 1].to_vec()).is_none());
    let mut longer = bytes.clone();
    longer.push(0);
    assert!(TrieNode::decode(&longer).is_none());
    // a path element that is no nibble
    let mut bad = bytes.clone();
    bad[9] = 16;
    assert!(TrieNode::decode(&bad).is_none());
    // a discriminator that does not fit the shape
    let mut bad = leaf_bytes.clone();
    bad[0] = 1;
    assert!(TrieNode::decode(&bad).is_none());
    assert!(TrieNode::decode(&Vec::new()).is_none());
}

#[test]
fn content_hash_is_fnv1a() {
    assert_eq!(hash_bytes(&Vec::new()), 0xcbf2_9ce4_8422_2325);
    assert_eq!(hash_bytes(&b"a".to_vec()), 0xaf63_dc4c_8601_ec8c);
    assert_eq!(hash_bytes(&b"foobar".to_vec()), 0x8594_4171_f739_67e8);
}

#[test]
fn store_refuses_a_colliding_node() {
    let mut db = DeltaDb::new_empty();
    let (_, bytes) = TrieNode::new(vec![1], Some(vec![1]), vec![None; 16]);
    let h = db.insert_node(bytes.clone()).unwrap();
    assert_eq!(h, hash_bytes(&bytes));
    assert!(db.contains(h));
    assert_eq!(db.get(h), Some(&bytes));
    // the same bytes again are no collision
    assert_eq!(db.insert_node(bytes.clone()), Ok(h));
    assert_eq!(db.len(), 1);
    assert_eq!(db.row_count(), 1);
    assert!(!db.contains(h ^ 1));
    assert_eq!(db.get(h ^ 1), None);
}

#[test]
fn epoch_roots_are_ordered() {
    let mut roots = EpochRoots::new();
    assert!(roots.insert(epoch(5), Some(50)).is_ok());
    assert!(roots.insert(epoch(1), None).is_ok());
    assert!(roots.insert(epoch(3), Some(30)).is_ok());
    assert_eq!(roots.insert(epoch(3), Some(31)), Err(ErrorKind::EpochAlreadyCommitted));
    assert_eq!(roots.len(), 3);
    assert_eq!(roots.record(0), EpochRoot { epoch: epoch(1), root: None });
    assert_eq!(roots.record(1), EpochRoot { epoch: epoch(3), root: Some(30) });
    assert_eq!(roots.record(2), EpochRoot { epoch: epoch(5), root: Some(50) });
    assert_eq!(roots.get(&epoch(1)), Some(None));
    assert_eq!(roots.get(&epoch(3)), Some(Some(30)));
    assert_eq!(roots.get(&epoch(4)), None);
    roots.rollback(&epoch(3));
    assert_eq!(roots.len(), 1);
    assert_eq!(roots.get(&epoch(3)), None);
    assert_eq!(roots.get(&epoch(1)), Some(None));
    assert!(EpochRoots::from_records(vec![
        EpochRoot { epoch: epoch(2), root: None },
        EpochRoot { epoch: epoch(2), root: None },
    ])
    .is_none());
}

#[test]
fn store_files_round_trip() {
    let mut manager = empty_manager();
    let mut state = manager.get_state_for_genesis().unwrap();
    for i in 0..20u32 {
        state.set(&mut manager, &key(i), value(i));
    }
    state.commit(&mut manager, epoch(1)).unwrap();
    let written = manager.row_count();
    let first = manager.rows_since(0);
    let mut file = encode_rows(&first);
    let mut next = manager.get_state_by_epoch(epoch(1)).unwrap().unwrap();
    next.set(&mut manager, b"more", vec![1]);
    let root = next.persist(&mut manager).unwrap();
    assert!(root.is_some());
    assert!(manager.contains_node(root.unwrap()));
    assert!(!manager.is_committed(epoch(2)));
    let records = manager.roots_after(epoch(2), root).unwrap();
    assert_eq!(records.len(), 2);
    assert_eq!(records[1], EpochRoot { epoch: epoch(2), root });
    assert_eq!(manager.roots_after(epoch(1), root), Err(ErrorKind::EpochAlreadyCommitted));
    // rows that came later are appended
    file.extend_from_slice(&encode_rows(&manager.rows_since(written)));
    manager.record_root(epoch(2), root).unwrap();
    assert_eq!(manager.record_root(epoch(2), None), Err(ErrorKind::EpochAlreadyCommitted));
    assert_eq!(manager.roots_below(epoch(2)).len(), 1);

    let rows = decode_rows(&file).unwrap();
    assert_eq!(rows.len(), manager.row_count());
    let roots = decode_records(&encode_records(&records)).unwrap();
    assert_eq!(roots, records);
    let image = DbImage { mpt_id: SINGLE_MPT_ID, rows, roots };
    let mut reopened = SingleMptStorageManager::new_arc(DeltaDbManager::new(vec![image])).unwrap();
    let view = reopened.get_state_by_epoch(epoch(2)).unwrap().unwrap();
    assert_eq!(view.get(&mut reopened, b"more"), Some(vec![1]));
    assert_eq!(view.get(&mut reopened, &key(7)), Some(value(7)));

    // exact bytes of one row and of two records
    let one = vec![DbRow { key: 0x0102, value: vec![9, 8] }];
    assert_eq!(
        encode_rows(&one),
        vec![2, 1, 0, 0, 0, 0, 0, 0, 2, 0, 0, 0, 0, 0, 0, 0, 9, 8]
    );
    let two = vec![
        EpochRoot { epoch: EpochId::new(1, 2), root: Some(3) },
        EpochRoot { epoch: EpochId::new(4, 0), root: None },
    ];
    let bytes = encode_records(&two);
    assert_eq!(bytes.len(), 50);
    assert_eq!(bytes[0], 1);
    assert_eq!(bytes[8], 2);
    assert_eq!(bytes[16], 1);
    assert_eq!(bytes[17], 3);
    assert_eq!(bytes[25], 4);
    assert_eq!(bytes[41], 0);
    assert_eq!(decode_records(&bytes), Some(two));
    // bytes that are cut short are refused
    assert!(decode_rows(&file[..file.len() - 1].to_vec()).is_none());
    assert!(decode_rows(&vec![0u8; 15]).is_none());
    assert_eq!(decode_rows(&Vec::new()).map(|r| r.len()), Some(0));
    assert!(decode_records(&bytes[..49].to_vec()).is_none());
    let mut bad = bytes.clone();
    bad[16] = 2;
    assert!(decode_records(&bad).is_none());
}

#[test]
fn rows_out_of_order_are_refused() {
    let mut manager = empty_manager();
    let mut state = manager.get_state_for_genesis().unwrap();
    state.set(&mut manager, b"ab", vec![1]);
    state.set(&mut manager, b"cd", vec![2]);
    state.commit(&mut manager, epoch(1)).unwrap();
    let image = manager.export();
    let mut rows: Vec<DbRow> =
        image.rows.iter().map(|r| DbRow { key: r.key, value: r.value.clone() }).collect();
    rows.reverse();
    let r = SingleMptStorageManager::new_arc(DeltaDbManager::new(vec![DbImage {
        mpt_id: SINGLE_MPT_ID,
        rows,
        roots: image.roots.clone(),
    }]));
    assert!(matches!(r, Err(ErrorKind::Corrupt)));
}

#[test]
fn a_node_without_value_and_second_child_is_no_row() {
    let mut children = vec![None; 16];
    let (_, leaf) = TrieNode::new(vec![1], Some(vec![1]), vec![None; 16]);
    let leaf_hash = hash_bytes(&leaf);
    children[3] = Some(leaf_hash);
    let (lonely, bytes) = TrieNode::new(vec![], None, children);
    assert!(!lonely.is_shaped());
    let rows = vec![
        DbRow { key: leaf_hash, value: leaf.clone() },
        DbRow { key: hash_bytes(&bytes), value: bytes },
    ];
    assert!(matches!(DeltaDb::from_rows(&rows), Err(ErrorKind::Corrupt)));
    let rows = vec![DbRow { key: leaf_hash, value: leaf }];
    assert!(DeltaDb::from_rows(&rows).is_ok());
}

#[test]
fn create_makes_the_store_once() {
    let mut db_manager = SingleMptDbManager::new(DeltaDbManager::new(Vec::new()));
    assert!(matches!(db_manager.create(3), Err(ErrorKind::DbNotExist)));
    let handle = db_manager.create(SINGLE_MPT_ID).unwrap();
    assert_eq!(handle.inner, Some(1));
    assert!(matches!(db_manager.create(SINGLE_MPT_ID), Err(ErrorKind::DbAlreadyExist)));
    assert_eq!(db_manager.open(SINGLE_MPT_ID).unwrap().inner, Some(1));
    assert_eq!(db_manager.physical_opens(), 1);
    // a store that was found is not made anew
    let image = DbImage { mpt_id: SINGLE_MPT_ID, rows: Vec::new(), roots: Vec::new() };
    let mut other = SingleMptDbManager::new(DeltaDbManager::new(vec![image]));
    assert!(matches!(other.create(SINGLE_MPT_ID), Err(ErrorKind::DbAlreadyExist)));
    assert!(other.open(SINGLE_MPT_ID).is_ok());
}

#[test]
fn lru_picks_the_slot_used_longest_ago() {
    let mut lru = Lru::new(8);
    assert_eq!(lru.entry_limit(), 8);
    lru.track();
    lru.track();
    lru.track();
    assert_eq!(lru.choose_eviction_candidate(), 0);
    lru.record_access(0);
    assert_eq!(lru.choose_eviction_candidate(), 1);
    lru.record_access(1);
    assert_eq!(lru.choose_eviction_candidate(), 2);
    // slot 2 is given up: the last slot takes its place, which it is itself
    lru.forget(2);
    assert_eq!(lru.choose_eviction_candidate(), 0);
    // slot 0 is given up: slot 1 takes its place
    lru.forget(0);
    assert_eq!(lru.choose_eviction_candidate(), 0);
}

#[test]
fn second_chance_spares_what_was_used() {
    let mut clock = DeltaMptsCacheAlgorithm::new(8);
    assert_eq!(clock.entry_limit(), 8);
    clock.track();
    clock.track();
    clock.track();
    // every slot was used: all lose their bit, and the hand's slot is picked
    assert_eq!(clock.choose_eviction_candidate(), 0);
    clock.record_access(0);
    // slot 0 gets its second chance, slot 1 has none left
    assert_eq!(clock.choose_eviction_candidate(), 1);
    clock.record_access(1);
    clock.record_access(2);
    // the hand stands at slot 1: it and slot 2 were used, slot 0 was not
    assert_eq!(clock.choose_eviction_candidate(), 0);
    clock.forget(0);
    clock.forget(0);
    clock.forget(0);
    clock.track();
    assert_eq!(clock.choose_eviction_candidate(), 0);
}

#[test]
fn pool_with_lru_evicts_in_order_of_use() {
    let mut db = DeltaDb::new_empty();
    let mut hashes = Vec::new();
    for i in 0..5u8 {
        let (_, bytes) = TrieNode::new(vec![i], Some(vec![i]), vec![None; 16]);
        hashes.push(db.insert_node(bytes).unwrap());
    }
    let mut pool = NodeMemoryManager::new(3, 3, 3, 3, Lru::new(3));
    for i in 0..3 {
        let slot = pool.load(&db, hashes[i]);
        assert_eq!(pool.node(slot).value(), &Some(vec![i as u8]));
    }
    assert_eq!(pool.resident_count(), 3);
    // use the first node again, then ask for a fourth: the second leaves
    pool.load(&db, hashes[0]);
    let slot = pool.load(&db, hashes[3]);
    assert_eq!(pool.node(slot).value(), &Some(vec![3]));
    assert_eq!(pool.resident_count(), 3);
    assert!(pool.slot_of(hashes[0]).is_some());
    assert!(pool.slot_of(hashes[1]).is_none());
    assert!(pool.slot_of(hashes[2]).is_some());
    assert!(pool.slot_of(hashes[3]).is_some());
    // the node that left is read again by its hash, with the same content
    let slot = pool.load(&db, hashes[1]);
    assert_eq!(pool.node(slot).value(), &Some(vec![1]));
    assert_eq!(pool.node(slot).path(), &vec![1]);
    assert!(pool.slot_of(hashes[2]).is_none());
    // a node that is handed in is resident without a read
    let node = db.load(hashes[4]);
    let slot = pool.insert(&db, hashes[4], node);
    assert_eq!(pool.node(slot).value(), &Some(vec![4]));
    assert_eq!(pool.resident_count(), 3);
    assert_eq!(pool.size_of(), 3 * (1 + 8 + 1 + 1 + 8 + 1 + 8));
}

#[test]
fn eviction_runs_in_batches() {
    let mut db = DeltaDb::new_empty();
    let mut hashes = Vec::new();
    for i in 0..10u8 {
        let (_, bytes) = TrieNode::new(vec![i], Some(vec![i]), vec![None; 16]);
        hashes.push(db.insert_node(bytes).unwrap());
    }
    // a pass runs at six resident nodes and leaves fewer than three
    let mut pool = NodeMemoryManager::new(8, 8, 3, 6, DeltaMptsCacheAlgorithm::new(8));
    for i in 0..6 {
        pool.load(&db, hashes[i]);
        assert_eq!(pool.resident_count(), i + 1);
    }
    pool.evict_if_needed();
    assert_eq!(pool.resident_count(), 2);
    pool.evict_if_needed();
    assert_eq!(pool.resident_count(), 2);
    for i in 6..10 {
        pool.load(&db, hashes[i]);
    }
    assert_eq!(pool.resident_count(), 6);
    pool.load(&db, hashes[0]);
    assert!(pool.resident_count() <= 3);
}
