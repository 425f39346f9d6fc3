use contrasleuth::inventory::{InMemory, InMemoryAnswer, Inventory, Message, Mutation, OnDisk, OnDiskAnswer};
use contrasleuth::message_hash::message_hash;

fn message(payload: &[u8], expiration_time: i64) -> Message {
    Message { payload: payload.to_vec(), nonce: 7, expiration_time }
}

#[test]
fn insert_publishes_the_content_hash() {
    let mut inventory = Inventory::new();
    let mutation = inventory.insert_message(message(b"a", 100)).unwrap();
    match mutation {
        Mutation::Insert(hash) => assert_eq!(hash, message_hash(b"a", 100)),
        Mutation::Purge(_) => panic!(),
    }
    assert!(inventory.message_exists(&message_hash(b"a", 100)));
    assert_eq!(inventory.get_expiration_time(&message_hash(b"a", 100)), Some(100));
    let stored = inventory.get_message(&message_hash(b"a", 100)).unwrap();
    assert_eq!(stored.payload, b"a".to_vec());
    assert_eq!(stored.nonce, 7);
}

#[test]
fn reinserting_is_a_no_op() {
    let mut inventory = Inventory::new();
    assert!(inventory.insert_message(message(b"a", 100)).is_some());
    assert!(inventory.insert_message(message(b"a", 100)).is_none());
    assert_eq!(inventory.len(), 1);
    assert_eq!(inventory.counter(), 1);
    // A different expiration time is a different item.
    assert!(inventory.insert_message(message(b"a", 101)).is_some());
    assert_eq!(inventory.len(), 2);
}

#[test]
fn counters_increase_with_insertion_order() {
    let mut inventory = Inventory::new();
    inventory.insert_message(message(b"first", 100));
    inventory.insert_message(message(b"second", 100));
    let (h1, c1) = inventory.get_one_after_counter(0).unwrap();
    let (h2, c2) = inventory.get_one_after_counter(c1).unwrap();
    assert_eq!(h1, message_hash(b"first", 100));
    assert_eq!(h2, message_hash(b"second", 100));
    assert_eq!((c1, c2), (1, 2));
    assert!(c1 < c2);
    assert!(inventory.get_one_after_counter(c2).is_none());
}

#[test]
fn sweep_purges_expired_items_once() {
    let mut inventory = Inventory::new();
    inventory.insert_message(message(b"old", 50));
    inventory.insert_message(message(b"edge", 60));
    inventory.insert_message(message(b"new", 100));
    let purged = inventory.purge_expired(60);
    let hashes: Vec<Vec<u8>> = purged
        .into_iter()
        .map(|m| match m {
            Mutation::Purge(h) => h,
            Mutation::Insert(_) => panic!(),
        })
        .collect();
    assert_eq!(hashes, vec![message_hash(b"old", 50), message_hash(b"edge", 60)]);
    assert!(!inventory.message_exists(&message_hash(b"old", 50)));
    assert!(inventory.get_message(&message_hash(b"old", 50)).is_none());
    assert!(inventory.message_exists(&message_hash(b"new", 100)));
    assert!(inventory.purge_expired(60).is_empty());
}

#[test]
fn populate_inserts_rows_in_order() {
    let mut inventory = Inventory::new();
    let published = inventory.populate(vec![message(b"x", 10), message(b"y", 10), message(b"x", 10)]);
    assert_eq!(published.len(), 2);
    let (h1, _) = inventory.get_one_after_counter(0).unwrap();
    assert_eq!(h1, message_hash(b"x", 10));
}

#[test]
fn in_memory_queries() {
    let mut inventory = Inventory::new();
    inventory.insert_message(message(b"q", 10));
    let h = message_hash(b"q", 10);
    assert!(matches!(inventory.in_memory(&InMemory::MessageExists(h.clone())), InMemoryAnswer::Exists(true)));
    assert!(matches!(inventory.in_memory(&InMemory::GetExpirationTime(h)), InMemoryAnswer::ExpirationTime(Some(10))));
    assert!(matches!(inventory.in_memory(&InMemory::GetOneAfterCounter(1)), InMemoryAnswer::OneAfterCounter(None)));
}

#[test]
fn on_disk_commands() {
    let mut inventory = Inventory::new();
    assert!(matches!(inventory.on_disk(OnDisk::InsertMessage(message(b"d", 9))), OnDiskAnswer::Inserted(Some(_))));
    assert!(matches!(inventory.on_disk(OnDisk::InsertMessage(message(b"d", 9))), OnDiskAnswer::Inserted(None)));
    match inventory.on_disk(OnDisk::GetMessage(message_hash(b"d", 9))) {
        OnDiskAnswer::Message(Some(m)) => assert_eq!(m.expiration_time, 9),
        _ => panic!(),
    }
    assert!(matches!(inventory.on_disk(OnDisk::GetMessage(vec![0u8; 64])), OnDiskAnswer::Message(None)));
}
