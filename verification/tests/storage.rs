use p2pvote::storage::{StorageMessage, StorageResult, VoteStorageActor};

#[test]
fn new_store_is_empty() {
    let mut store = VoteStorageActor::new();
    assert!(store.storage.is_empty());
    assert_eq!(store.handle(StorageMessage::Retrieve(7)), StorageResult::NotFound);
}

#[test]
fn store_then_retrieve_gives_the_vote() {
    let mut store = VoteStorageActor::new();
    assert_eq!(store.handle(StorageMessage::Store(4124, 2)), StorageResult::NotFound);
    assert_eq!(store.handle(StorageMessage::Retrieve(4124)), StorageResult::Found(2));
    assert_eq!(store.storage.len(), 1);
}

#[test]
fn a_second_store_overwrites() {
    let mut store = VoteStorageActor::new();
    store.handle(StorageMessage::Store(1, 0));
    store.handle(StorageMessage::Store(1, 3));
    assert_eq!(store.handle(StorageMessage::Retrieve(1)), StorageResult::Found(3));
    assert_eq!(store.storage.len(), 1);
}

#[test]
fn other_keys_are_untouched() {
    let mut store = VoteStorageActor::new();
    store.handle(StorageMessage::Store(1, 5));
    store.handle(StorageMessage::Store(2, 6));
    assert_eq!(store.handle(StorageMessage::Retrieve(1)), StorageResult::Found(5));
    assert_eq!(store.handle(StorageMessage::Retrieve(2)), StorageResult::Found(6));
    assert_eq!(store.handle(StorageMessage::Retrieve(3)), StorageResult::NotFound);
}

#[test]
fn retrieve_changes_nothing() {
    let mut store = VoteStorageActor::new();
    store.handle(StorageMessage::Store(9, 1));
    let first = store.handle(StorageMessage::Retrieve(9));
    let second = store.handle(StorageMessage::Retrieve(9));
    assert_eq!(first, second);
    assert_eq!(store.storage.len(), 1);
}

#[test]
fn read_after_write_across_other_requests() {
    let mut store = VoteStorageActor::new();
    store.handle(StorageMessage::Store(42, 3));
    store.handle(StorageMessage::Store(7, 1));
    store.handle(StorageMessage::Retrieve(42));
    store.handle(StorageMessage::Retrieve(99));
    store.handle(StorageMessage::Store(8, 0));
    assert_eq!(store.handle(StorageMessage::Retrieve(42)), StorageResult::Found(3));
}
