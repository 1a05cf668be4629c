//! Tests of the archival storage engine: overlay behaviour, commit, reopen
//! durability and historical state lookups.

use statedb::archivedb::ArchiveDB;
use statedb::database::Database;
use statedb::hash::{keccak, H256};

fn new_temp() -> ArchiveDB {
    ArchiveDB::new(Database::new(), Some(0))
}

#[test]
fn insert_same_in_fork() {
    // history is 1
    let mut jdb = new_temp();

    let x = jdb.insert(b"X");
    jdb.commit(1, &keccak(b"1"), None).unwrap();
    jdb.commit(2, &keccak(b"2"), None).unwrap();
    jdb.commit(3, &keccak(b"1002a"), Some((1, keccak(b"1")))).unwrap();
    jdb.commit(4, &keccak(b"1003a"), Some((2, keccak(b"2")))).unwrap();

    jdb.remove(&x);
    jdb.commit(3, &keccak(b"1002b"), Some((1, keccak(b"1")))).unwrap();
    let x = jdb.insert(b"X");
    jdb.commit(4, &keccak(b"1003b"), Some((2, keccak(b"2")))).unwrap();

    jdb.commit(5, &keccak(b"1004a"), Some((3, keccak(b"1002a")))).unwrap();
    jdb.commit(6, &keccak(b"1005a"), Some((4, keccak(b"1003a")))).unwrap();

    assert!(jdb.contains(&x));
}

#[test]
fn long_history() {
    // history is 3
    let mut jdb = new_temp();
    let h = jdb.insert(b"foo");
    jdb.commit(0, &keccak(b"0"), None).unwrap();
    assert!(jdb.contains(&h));
    jdb.remove(&h);
    jdb.commit(1, &keccak(b"1"), None).unwrap();
    assert!(jdb.contains(&h));
    jdb.commit(2, &keccak(b"2"), None).unwrap();
    assert!(jdb.contains(&h));
    jdb.commit(3, &keccak(b"3"), Some((0, keccak(b"0")))).unwrap();
    assert!(jdb.contains(&h));
    jdb.commit(4, &keccak(b"4"), Some((1, keccak(b"1")))).unwrap();
}

#[test]
fn complex() {
    // history is 1
    let mut jdb = new_temp();

    let foo = jdb.insert(b"foo");
    let bar = jdb.insert(b"bar");
    jdb.commit(0, &keccak(b"0"), None).unwrap();
    assert!(jdb.contains(&foo));
    assert!(jdb.contains(&bar));

    jdb.remove(&foo);
    jdb.remove(&bar);
    let baz = jdb.insert(b"baz");
    jdb.commit(1, &keccak(b"1"), Some((0, keccak(b"0")))).unwrap();
    assert!(jdb.contains(&foo));
    assert!(jdb.contains(&bar));
    assert!(jdb.contains(&baz));

    let foo = jdb.insert(b"foo");
    jdb.remove(&baz);
    jdb.commit(2, &keccak(b"2"), Some((1, keccak(b"1")))).unwrap();
    assert!(jdb.contains(&foo));
    assert!(jdb.contains(&baz));

    jdb.remove(&foo);
    jdb.commit(3, &keccak(b"3"), Some((2, keccak(b"2")))).unwrap();
    assert!(jdb.contains(&foo));

    jdb.commit(4, &keccak(b"4"), Some((3, keccak(b"3")))).unwrap();
}

#[test]
fn fork() {
    // history is 1
    let mut jdb = new_temp();

    let foo = jdb.insert(b"foo");
    let bar = jdb.insert(b"bar");
    jdb.commit(0, &keccak(b"0"), None).unwrap();
    assert!(jdb.contains(&foo));
    assert!(jdb.contains(&bar));

    jdb.remove(&foo);
    let baz = jdb.insert(b"baz");
    jdb.commit(1, &keccak(b"1a"), Some((0, keccak(b"0")))).unwrap();

    jdb.remove(&bar);
    jdb.commit(1, &keccak(b"1b"), Some((0, keccak(b"0")))).unwrap();

    assert!(jdb.contains(&foo));
    assert!(jdb.contains(&bar));
    assert!(jdb.contains(&baz));

    jdb.commit(2, &keccak(b"2b"), Some((1, keccak(b"1b")))).unwrap();
    assert!(jdb.contains(&foo));
}

#[test]
fn overwrite() {
    // history is 1
    let mut jdb = new_temp();

    let foo = jdb.insert(b"foo");
    jdb.commit(0, &keccak(b"0"), None).unwrap();
    assert!(jdb.contains(&foo));

    jdb.remove(&foo);
    jdb.commit(1, &keccak(b"1"), Some((0, keccak(b"0")))).unwrap();
    jdb.insert(b"foo");
    assert!(jdb.contains(&foo));
    jdb.commit(2, &keccak(b"2"), Some((1, keccak(b"1")))).unwrap();
    assert!(jdb.contains(&foo));
    jdb.commit(3, &keccak(b"2"), Some((0, keccak(b"2")))).unwrap();
    assert!(jdb.contains(&foo));
}

#[test]
fn fork_same_key() {
    // history is 1
    let mut jdb = new_temp();
    jdb.commit(0, &keccak(b"0"), None).unwrap();

    let foo = jdb.insert(b"foo");
    jdb.commit(1, &keccak(b"1a"), Some((0, keccak(b"0")))).unwrap();

    jdb.insert(b"foo");
    jdb.commit(1, &keccak(b"1b"), Some((0, keccak(b"0")))).unwrap();
    assert!(jdb.contains(&foo));

    jdb.commit(2, &keccak(b"2a"), Some((1, keccak(b"1a")))).unwrap();
    assert!(jdb.contains(&foo));
}

#[test]
fn reopen() {
    let bar = H256::repeat_byte(3);

    let (foo, backing) = {
        let mut jdb = ArchiveDB::new(Database::new(), None);
        // history is 1
        let foo = jdb.insert(b"foo");
        jdb.emplace(bar.clone(), b"bar".to_vec());
        jdb.commit(0, &keccak(b"0"), None).unwrap();
        (foo, jdb.close())
    };

    let backing = {
        let mut jdb = ArchiveDB::new(backing, None);
        jdb.remove(&foo);
        jdb.commit(1, &keccak(b"1"), Some((0, keccak(b"0")))).unwrap();
        jdb.close()
    };

    {
        let mut jdb = ArchiveDB::new(backing, None);
        assert!(jdb.contains(&foo));
        assert!(jdb.contains(&bar));
        jdb.commit(2, &keccak(b"2"), Some((1, keccak(b"1")))).unwrap();
    }
}

#[test]
fn reopen_remove() {
    let (foo, backing) = {
        let mut jdb = ArchiveDB::new(Database::new(), None);
        // history is 1
        let foo = jdb.insert(b"foo");
        jdb.commit(0, &keccak(b"0"), None).unwrap();
        jdb.commit(1, &keccak(b"1"), Some((0, keccak(b"0")))).unwrap();

        // foo is ancient history.

        jdb.insert(b"foo");
        jdb.commit(2, &keccak(b"2"), Some((1, keccak(b"1")))).unwrap();
        (foo, jdb.close())
    };

    {
        let mut jdb = ArchiveDB::new(backing, None);
        jdb.remove(&foo);
        jdb.commit(3, &keccak(b"3"), Some((2, keccak(b"2")))).unwrap();
        assert!(jdb.contains(&foo));
        jdb.remove(&foo);
        jdb.commit(4, &keccak(b"4"), Some((3, keccak(b"3")))).unwrap();
        jdb.commit(5, &keccak(b"5"), Some((4, keccak(b"4")))).unwrap();
    }
}

#[test]
fn reopen_fork() {
    let (foo, _bar, _baz, backing) = {
        let mut jdb = ArchiveDB::new(Database::new(), None);
        // history is 1
        let foo = jdb.insert(b"foo");
        let bar = jdb.insert(b"bar");
        jdb.commit(0, &keccak(b"0"), None).unwrap();
        jdb.remove(&foo);
        let baz = jdb.insert(b"baz");
        jdb.commit(1, &keccak(b"1a"), Some((0, keccak(b"0")))).unwrap();

        jdb.remove(&bar);
        jdb.commit(1, &keccak(b"1b"), Some((0, keccak(b"0")))).unwrap();
        (foo, bar, baz, jdb.close())
    };

    {
        let mut jdb = ArchiveDB::new(backing, None);
        jdb.commit(2, &keccak(b"2b"), Some((1, keccak(b"1b")))).unwrap();
        assert!(jdb.contains(&foo));
    }
}

#[test]
fn returns_state() {
    let (key, backing) = {
        let mut jdb = ArchiveDB::new(Database::new(), None);
        let key = jdb.insert(b"foo");
        jdb.commit(0, &keccak(b"0"), None).unwrap();
        (key, jdb.close())
    };

    {
        let jdb = ArchiveDB::new(backing, None);
        let state = jdb.state(&key);
        assert!(state.is_some());
    }
}

#[test]
fn insert_then_get_returns_value() {
    // Round trip: an insert followed by a read of its hash returns the
    // payload, before any commit.
    let mut jdb = new_temp();
    let h = jdb.insert(b"some payload");
    assert_eq!(jdb.get(&h), Some(b"some payload".to_vec()));
}

#[test]
fn insert_remove_falls_through_to_backing() {
    // A remove right after an insert makes the read fall through to the
    // backing store: absent when never committed.
    let mut jdb = new_temp();
    let h = jdb.insert(b"foo");
    jdb.remove(&h);
    assert_eq!(jdb.get(&h), None);
    assert!(!jdb.contains(&h));
}

#[test]
fn double_insert_single_remove_survives_commit() {
    // Net count +1: insert twice, remove once, commit; still retrievable.
    let mut jdb = new_temp();
    let h = jdb.insert(b"X");
    jdb.insert(b"X");
    jdb.remove(&h);
    jdb.commit(0, &keccak(b"0"), None).unwrap();
    assert!(jdb.contains(&h));
    assert_eq!(jdb.get(&h), Some(b"X".to_vec()));
}

#[test]
fn never_pruned() {
    let mut jdb = new_temp();
    assert!(!jdb.is_pruned());
    let h = jdb.insert(b"foo");
    jdb.commit(0, &keccak(b"0"), None).unwrap();
    jdb.remove(&h);
    jdb.commit(1, &keccak(b"1"), None).unwrap();
    assert!(!jdb.is_pruned());
    // the logical remove deleted nothing
    assert!(jdb.contains(&h));
}

#[test]
fn commit_counts_inserts_and_removals() {
    let mut jdb = new_temp();
    jdb.insert(b"one");
    jdb.insert(b"two");
    let gone = jdb.insert(b"three");
    jdb.commit(0, &keccak(b"0"), None).unwrap();
    jdb.remove(&gone);
    // one pending removal: counted, though nothing is deleted
    assert_eq!(jdb.commit(1, &keccak(b"1"), None).unwrap(), 1);
    assert!(jdb.contains(&gone));
}

#[test]
fn era_advances_monotonically() {
    let mut jdb = new_temp();
    assert!(jdb.is_empty());
    assert_eq!(jdb.latest_era(), None);
    jdb.insert(b"foo");
    jdb.commit(7, &keccak(b"7"), None).unwrap();
    assert_eq!(jdb.latest_era(), Some(7));
    assert!(!jdb.is_empty());
    // an older era does not move the marker back
    jdb.commit(3, &keccak(b"3"), None).unwrap();
    assert_eq!(jdb.latest_era(), Some(7));
    let backing = jdb.close();
    let jdb = ArchiveDB::new(backing, Some(0));
    assert_eq!(jdb.latest_era(), Some(7));
}

#[test]
fn aux_round_trip_and_reopen() {
    let mut jdb = new_temp();
    jdb.insert_aux(b"meta".to_vec(), b"value".to_vec());
    assert_eq!(jdb.get_aux(&b"meta".to_vec()), Some(b"value".to_vec()));
    jdb.commit(0, &keccak(b"0"), None).unwrap();
    // after the flush the auxiliary entry is read back from the backing store
    assert_eq!(jdb.get_aux(&b"meta".to_vec()), Some(b"value".to_vec()));
    let backing = jdb.close();
    let jdb = ArchiveDB::new(backing, Some(0));
    assert_eq!(jdb.get_aux(&b"meta".to_vec()), Some(b"value".to_vec()));
    assert_eq!(jdb.get_aux(&b"missing".to_vec()), None);
}

#[test]
fn remove_aux_drops_pending_entry() {
    let mut jdb = new_temp();
    jdb.insert_aux(b"meta".to_vec(), b"value".to_vec());
    jdb.remove_aux(&b"meta".to_vec());
    assert_eq!(jdb.get_aux(&b"meta".to_vec()), None);
}

#[test]
fn boxed_clone_shares_history_not_overlay() {
    let mut jdb = new_temp();
    let committed = jdb.insert(b"committed");
    jdb.commit(0, &keccak(b"0"), None).unwrap();
    let pending = jdb.insert(b"pending");
    let mut other = jdb.boxed_clone();
    // the clone sees committed history but not the pending overlay
    assert!(other.contains(&committed));
    assert!(!other.contains(&pending));
    assert_eq!(other.latest_era(), Some(0));
}

#[test]
fn keys_merges_backing_and_overlay() {
    let mut jdb = new_temp();
    let foo = jdb.insert(b"foo");
    jdb.commit(0, &keccak(b"0"), None).unwrap();
    jdb.insert(b"foo");
    let bar = jdb.insert(b"bar");
    let keys = jdb.keys();
    assert_eq!(keys.len(), 2);
    for (h, n) in &keys {
        if h.to_vec() == foo.to_vec() {
            // one committed reference plus one pending insert
            assert_eq!(*n, 2);
        } else {
            assert_eq!(h.to_vec(), bar.to_vec());
            assert_eq!(*n, 1);
        }
    }
}

#[test]
fn mem_used_counts_pending_entries() {
    let mut jdb = new_temp();
    assert_eq!(jdb.mem_used(), 0);
    jdb.insert(b"foo");
    jdb.insert_aux(b"k".to_vec(), b"v".to_vec());
    assert_eq!(jdb.mem_used(), 2);
    jdb.commit(0, &keccak(b"0"), None).unwrap();
    assert_eq!(jdb.mem_used(), 0);
}

#[test]
fn keccak_matches_known_digest() {
    // the Keccak-256 digest of the empty byte string
    let h = keccak(b"");
    let expected = vec![
        0xc5u8, 0xd2, 0x46, 0x01, 0x86, 0xf7, 0x23, 0x3c, 0x92, 0x7e, 0x7d, 0xb2, 0xdc, 0xc7,
        0x03, 0xc0, 0xe5, 0x00, 0xb6, 0x53, 0xca, 0x82, 0x27, 0x3b, 0x7b, 0xfa, 0xd8, 0x04, 0x5d,
        0x85, 0xa4, 0x70,
    ];
    assert_eq!(h.to_vec(), expected);
}

#[test]
fn state_absent_on_empty_store() {
    let jdb = new_temp();
    let id = H256::repeat_byte(0x42);
    assert!(jdb.state(&id).is_none());
}

#[test]
fn get_after_reopen_returns_committed_value() {
    let mut jdb = ArchiveDB::new(Database::new(), None);
    let h = jdb.insert(b"durable");
    jdb.commit(11, &keccak(b"11"), None).unwrap();
    let era_before = jdb.latest_era();
    let backing = jdb.close();
    let mut reopened = ArchiveDB::new(backing, None);
    assert_eq!(reopened.get(&h), Some(b"durable".to_vec()));
    assert_eq!(reopened.latest_era(), era_before);
}
