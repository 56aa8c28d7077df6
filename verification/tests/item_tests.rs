use auction_project_backend::bids::Bids;
use auction_project_backend::identity::Identity;
use auction_project_backend::item::Item;

fn id(bytes: &[u8]) -> Identity {
    Identity::new(bytes.to_vec()).unwrap()
}

#[test]
fn a_new_item_has_no_bids_and_no_new_owner() {
    let item = Item::new(String::from("desc"), true, id(&[1]));
    assert_eq!(item.description(), "desc");
    assert!(item.is_active());
    assert_eq!(item.owner(), &id(&[1]));
    assert_eq!(item.new_owner(), None);
    assert_eq!(item.bid_count(), 0);
    assert_eq!(item.bids().len(), 0);
}

#[test]
fn a_recorded_bid_is_counted_each_time() {
    let mut item = Item::new(String::from("desc"), true, id(&[1]));
    item.record_bid(id(&[2]), 5);
    item.record_bid(id(&[2]), 6);
    item.record_bid(id(&[3]), 7);
    assert_eq!(item.bid_count(), 3);
    assert_eq!(item.bids().len(), 2);
    assert_eq!(item.bids().amount_of(&id(&[2])), Some(6));
}

#[test]
fn closing_gives_the_item_to_the_highest_bidder() {
    let mut item = Item::new(String::from("desc"), true, id(&[1]));
    item.record_bid(id(&[2]), 5);
    item.record_bid(id(&[3]), 9);
    item.record_bid(id(&[4]), 7);
    item.close();
    assert!(!item.is_active());
    assert_eq!(item.new_owner(), Some(&id(&[3])));
    assert_eq!(item.owner(), &id(&[1]));
    assert_eq!(item.bid_count(), 3);
}

#[test]
fn set_description_changes_the_description_only() {
    let mut item = Item::new(String::from("desc"), true, id(&[1]));
    item.record_bid(id(&[2]), 5);
    let before = item.clone();
    item.set_description(String::from("new"));
    assert_eq!(item.description(), "new");
    assert_eq!(item.owner(), before.owner());
    assert_eq!(item.bids(), before.bids());
    assert_eq!(item.bid_count(), before.bid_count());
    assert_eq!(item.is_active(), before.is_active());
}

#[test]
fn from_parts_refuses_an_active_item_with_a_new_owner() {
    let mut bids = Bids::new();
    bids.set(id(&[2]), 5);
    let made = Item::from_parts(String::from("d"), true, id(&[1]), Some(id(&[2])), 1, bids);
    assert!(made.is_none());
}

#[test]
fn from_parts_refuses_a_new_owner_without_bids() {
    let made =
        Item::from_parts(String::from("d"), false, id(&[1]), Some(id(&[2])), 0, Bids::new());
    assert!(made.is_none());
}

#[test]
fn from_parts_makes_the_item_of_its_fields() {
    let mut bids = Bids::new();
    bids.set(id(&[2]), 5);
    let made = Item::from_parts(String::from("d"), false, id(&[1]), Some(id(&[2])), 4, bids)
        .unwrap();
    assert_eq!(made.bid_count(), 4);
    assert_eq!(made.new_owner(), Some(&id(&[2])));
    assert!(!made.is_active());
}

#[test]
fn room_for_a_bid_ends_with_the_counter() {
    let mut bids = Bids::new();
    bids.set(id(&[2]), 5);
    let full =
        Item::from_parts(String::from("d"), true, id(&[1]), None, u32::MAX, bids.clone()).unwrap();
    assert!(!full.has_room_for(&id(&[2])));
    let nearly =
        Item::from_parts(String::from("d"), true, id(&[1]), None, u32::MAX - 1, bids).unwrap();
    assert!(nearly.has_room_for(&id(&[2])));
}
