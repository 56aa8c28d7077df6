use auction_project_backend::identity::Identity;
use auction_project_backend::item::Item;
use auction_project_backend::store::ItemStore;

fn id(bytes: &[u8]) -> Identity {
    Identity::new(bytes.to_vec()).unwrap()
}

fn item(description: &str) -> Item {
    Item::new(String::from(description), true, id(&[1]))
}

#[test]
fn a_store_on_fresh_memory_is_empty() {
    let store = ItemStore::open().unwrap();
    assert_eq!(store.count(), 0);
    assert!(store.scan().is_empty());
    assert_eq!(store.get(0), None);
}

#[test]
fn put_returns_nothing_for_a_new_id() {
    let mut store = ItemStore::open().unwrap();
    assert_eq!(store.put(5, item("five")), None);
    assert_eq!(store.count(), 1);
}

#[test]
fn get_returns_what_put_stored() {
    let mut store = ItemStore::open().unwrap();
    let mut stored = item("five");
    stored.record_bid(id(&[2]), 17);
    store.put(5, stored.clone());
    assert_eq!(store.get(5), Some(stored));
    assert_eq!(store.get(6), None);
}

#[test]
fn put_returns_the_item_it_replaces() {
    let mut store = ItemStore::open().unwrap();
    store.put(5, item("first"));
    assert_eq!(store.put(5, item("second")), Some(item("first")));
    assert_eq!(store.get(5), Some(item("second")));
    assert_eq!(store.count(), 1);
}

#[test]
fn put_leaves_the_other_ids_alone() {
    let mut store = ItemStore::open().unwrap();
    store.put(1, item("one"));
    store.put(2, item("two"));
    store.put(1, item("uno"));
    assert_eq!(store.get(2), Some(item("two")));
    assert_eq!(store.count(), 2);
}

#[test]
fn scan_goes_in_ascending_order_of_the_ids() {
    let mut store = ItemStore::open().unwrap();
    store.put(30, item("thirty"));
    store.put(10, item("ten"));
    store.put(u64::MAX, item("last"));
    store.put(20, item("twenty"));
    let scanned = store.scan();
    assert_eq!(
        scanned,
        vec![
            (10, item("ten")),
            (20, item("twenty")),
            (30, item("thirty")),
            (u64::MAX, item("last")),
        ]
    );
}

#[test]
fn count_is_the_number_of_distinct_ids() {
    let mut store = ItemStore::open().unwrap();
    for key in [3u64, 1, 3, 2, 1, 3] {
        store.put(key, item("x"));
    }
    assert_eq!(store.count(), 3);
}

#[test]
fn many_items_are_all_found_again() {
    let mut store = ItemStore::open().unwrap();
    for key in 0..200u64 {
        store.put(key * 7, item(&format!("item {key}")));
    }
    assert_eq!(store.count(), 200);
    for key in 0..200u64 {
        assert_eq!(store.get(key * 7), Some(item(&format!("item {key}"))));
    }
    let scanned = store.scan();
    assert_eq!(scanned.len(), 200);
    for (at, (key, _)) in scanned.iter().enumerate() {
        assert_eq!(*key, at as u64 * 7);
    }
}

#[test]
fn two_stores_do_not_share_their_items() {
    let mut first = ItemStore::open().unwrap();
    let second = ItemStore::open().unwrap();
    first.put(1, item("one"));
    assert_eq!(second.count(), 0);
}
