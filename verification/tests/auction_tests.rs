use auction_project_backend::auction::{
    bid_item, create_item, edit_item, get_all_items, get_item, get_item_bid_on_the_most,
    get_item_count, get_item_sold_for_the_most, has_room_for_bid, stop_item, CreateItem,
};
use auction_project_backend::identity::Identity;
use auction_project_backend::item::{AuctionError, Item};
use auction_project_backend::store::ItemStore;

fn id(bytes: &[u8]) -> Identity {
    Identity::new(bytes.to_vec()).unwrap()
}

fn create(store: &mut ItemStore, owner: &Identity, key: u64, description: &str) -> Option<Item> {
    create_item(
        store,
        owner,
        key,
        CreateItem { description: String::from(description), is_active: true },
    )
}

/// Stores an active item of `owner` under `key` that has taken `opening`
/// as its first bid, from `bidder`.
fn open_with_bid(store: &mut ItemStore, owner: &Identity, key: u64, bidder: &Identity, opening: u64) {
    let mut item = Item::new(String::from("desc"), true, owner.clone());
    item.record_bid(bidder.clone(), opening);
    store.put(key, item);
}

#[test]
fn create_item_stores_an_item_of_the_caller() {
    let mut store = ItemStore::open().unwrap();
    let owner = id(&[1]);
    assert_eq!(create(&mut store, &owner, 1, "desc"), None);
    let item = get_item(&store, 1).unwrap();
    assert_eq!(item.description(), "desc");
    assert!(item.is_active());
    assert_eq!(item.owner(), &owner);
    assert_eq!(item.new_owner(), None);
    assert_eq!(item.bid_count(), 0);
    assert_eq!(item.bids().len(), 0);
}

#[test]
fn create_item_on_a_used_id_overwrites_and_returns_the_old_item() {
    let mut store = ItemStore::open().unwrap();
    let a = id(&[1]);
    let b = id(&[2]);
    create(&mut store, &a, 1, "first");
    let previous = create(&mut store, &b, 1, "second").unwrap();
    assert_eq!(previous.description(), "first");
    assert_eq!(previous.owner(), &a);
    let now = get_item(&store, 1).unwrap();
    assert_eq!(now.description(), "second");
    assert_eq!(now.owner(), &b);
    assert_eq!(get_item_count(&store), 1);
}

#[test]
fn create_item_can_make_an_inactive_item() {
    let mut store = ItemStore::open().unwrap();
    create_item(
        &mut store,
        &id(&[1]),
        4,
        CreateItem { description: String::from("shelved"), is_active: false },
    );
    let item = get_item(&store, 4).unwrap();
    assert!(!item.is_active());
    assert_eq!(item.new_owner(), None);
}

#[test]
fn get_item_count_counts_distinct_created_ids() {
    let mut store = ItemStore::open().unwrap();
    let owner = id(&[1]);
    assert_eq!(get_item_count(&store), 0);
    for key in [5u64, 9, 5, 7, 9, 5] {
        create(&mut store, &owner, key, "x");
    }
    assert_eq!(get_item_count(&store), 3);
}

#[test]
fn count_is_kept_by_bids_edits_and_closes() {
    let mut store = ItemStore::open().unwrap();
    let owner = id(&[1]);
    let bidder = id(&[2]);
    open_with_bid(&mut store, &owner, 1, &bidder, 1);
    create(&mut store, &owner, 2, "two");
    assert_eq!(bid_item(&mut store, &bidder, 1, 5), Ok(()));
    assert_eq!(edit_item(&mut store, &owner, 2, String::from("zwei")), Ok(()));
    assert_eq!(stop_item(&mut store, &owner, 1), Ok(()));
    assert_eq!(get_item_count(&store), 2);
}

#[test]
fn get_all_items_gives_every_item_under_its_id() {
    let mut store = ItemStore::open().unwrap();
    let owner = id(&[1]);
    create(&mut store, &owner, 3, "three");
    create(&mut store, &owner, 1, "one");
    let all = get_all_items(&store).unwrap();
    assert_eq!(all.len(), 2);
    assert_eq!(all.get(&1), get_item(&store, 1).as_ref());
    assert_eq!(all.get(&3), get_item(&store, 3).as_ref());
    assert_eq!(all.keys().copied().collect::<Vec<u64>>(), vec![1, 3]);
}

#[test]
fn get_all_items_of_an_empty_store_is_an_empty_map() {
    let store = ItemStore::open().unwrap();
    assert_eq!(get_all_items(&store).map(|all| all.len()), Some(0));
}

#[test]
fn bid_on_a_missing_item_is_refused() {
    let mut store = ItemStore::open().unwrap();
    assert_eq!(bid_item(&mut store, &id(&[2]), 1, 10), Err(AuctionError::NoSuchItem));
}

#[test]
fn bids_on_a_new_item_need_an_opening_bid() {
    let mut store = ItemStore::open().unwrap();
    let owner = id(&[1]);
    let bidder = id(&[2]);
    create(&mut store, &owner, 1, "desc");
    // A new item has no bid, and no bid is put there for it: the first bid
    // finds nothing to exceed and is refused.
    assert_eq!(bid_item(&mut store, &bidder, 1, 10), Err(AuctionError::NoSuchItem));
    assert_eq!(get_item(&store, 1).unwrap().bid_count(), 0);
    // With an opening bid recorded by hand, bidding goes its way.
    open_with_bid(&mut store, &owner, 1, &owner, 0);
    assert_eq!(bid_item(&mut store, &bidder, 1, 50), Ok(()));
    assert_eq!(bid_item(&mut store, &bidder, 1, 100), Ok(()));
    assert_eq!(bid_item(&mut store, &bidder, 1, 80), Err(AuctionError::InvalidBid));
    let item = get_item(&store, 1).unwrap();
    assert_eq!(item.bid_count(), 3);
    assert_eq!(item.bids().amount_of(&bidder), Some(100));
}

#[test]
fn a_bid_equal_to_the_highest_is_invalid_and_changes_nothing() {
    let mut store = ItemStore::open().unwrap();
    let owner = id(&[1]);
    open_with_bid(&mut store, &owner, 1, &id(&[2]), 30);
    let before = get_item(&store, 1);
    assert_eq!(bid_item(&mut store, &id(&[3]), 1, 30), Err(AuctionError::InvalidBid));
    assert_eq!(bid_item(&mut store, &id(&[3]), 1, 29), Err(AuctionError::InvalidBid));
    assert_eq!(bid_item(&mut store, &id(&[3]), 1, 0), Err(AuctionError::InvalidBid));
    assert_eq!(get_item(&store, 1), before);
}

#[test]
fn a_bid_must_exceed_the_bids_of_all_bidders() {
    let mut store = ItemStore::open().unwrap();
    let owner = id(&[1]);
    let x = id(&[2]);
    let y = id(&[3]);
    open_with_bid(&mut store, &owner, 1, &x, 10);
    assert_eq!(bid_item(&mut store, &y, 1, 40), Ok(()));
    // 20 exceeds the own bid of x, not the bid of y.
    assert_eq!(bid_item(&mut store, &x, 1, 20), Err(AuctionError::InvalidBid));
    assert_eq!(bid_item(&mut store, &x, 1, 41), Ok(()));
    let item = get_item(&store, 1).unwrap();
    assert_eq!(item.bids().amount_of(&x), Some(41));
    assert_eq!(item.bids().amount_of(&y), Some(40));
    assert_eq!(item.bids().len(), 2);
    assert_eq!(item.bid_count(), 3);
}

#[test]
fn a_bid_on_an_inactive_item_is_refused() {
    let mut store = ItemStore::open().unwrap();
    let owner = id(&[1]);
    let mut item = Item::new(String::from("shelved"), false, owner.clone());
    item.record_bid(id(&[2]), 5);
    store.put(1, item.clone());
    assert_eq!(bid_item(&mut store, &id(&[3]), 1, 6), Err(AuctionError::ItemIsNotActive));
    assert_eq!(bid_item(&mut store, &id(&[3]), 1, 5), Err(AuctionError::InvalidBid));
    assert_eq!(get_item(&store, 1), Some(item));
}

#[test]
fn has_room_for_bid_tells_when_a_bid_can_be_taken() {
    let mut store = ItemStore::open().unwrap();
    let owner = id(&[1]);
    let mut item = Item::new(String::from("crowded"), true, owner.clone());
    for i in 0..100u8 {
        item.record_bid(id(&[i, 0]), u64::from(i));
    }
    store.put(1, item);
    assert!(has_room_for_bid(&store, &id(&[5, 0]), 1));
    assert!(!has_room_for_bid(&store, &id(&[5, 1]), 1));
    assert!(has_room_for_bid(&store, &id(&[5, 1]), 2));
    assert_eq!(bid_item(&mut store, &id(&[5, 0]), 1, 1000), Ok(()));
    assert_eq!(get_item(&store, 1).unwrap().bids().len(), 100);
}

#[test]
fn only_the_owner_edits() {
    let mut store = ItemStore::open().unwrap();
    let a = id(&[10]);
    let b = id(&[11]);
    create(&mut store, &a, 2, "old");
    assert_eq!(edit_item(&mut store, &b, 2, String::from("new")), Err(AuctionError::AccessRejected));
    assert_eq!(get_item(&store, 2).unwrap().description(), "old");
    assert_eq!(edit_item(&mut store, &a, 2, String::from("new")), Ok(()));
    let item = get_item(&store, 2).unwrap();
    assert_eq!(item.description(), "new");
    assert_eq!(item.owner(), &a);
    assert!(item.is_active());
}

#[test]
fn edit_of_a_missing_item_is_refused() {
    let mut store = ItemStore::open().unwrap();
    assert_eq!(
        edit_item(&mut store, &id(&[1]), 2, String::from("new")),
        Err(AuctionError::NoSuchItem)
    );
}

#[test]
fn edit_of_a_closed_item_is_refused() {
    let mut store = ItemStore::open().unwrap();
    let owner = id(&[1]);
    open_with_bid(&mut store, &owner, 2, &id(&[2]), 5);
    assert_eq!(stop_item(&mut store, &owner, 2), Ok(()));
    assert_eq!(
        edit_item(&mut store, &owner, 2, String::from("new")),
        Err(AuctionError::ItemIsNotActive)
    );
    assert_eq!(get_item(&store, 2).unwrap().description(), "desc");
}

#[test]
fn a_stranger_is_rejected_whatever_the_state_of_the_item() {
    let mut store = ItemStore::open().unwrap();
    let owner = id(&[1]);
    let stranger = id(&[1, 0]);
    create(&mut store, &owner, 1, "no bids");
    open_with_bid(&mut store, &owner, 2, &id(&[2]), 5);
    open_with_bid(&mut store, &owner, 3, &id(&[2]), 5);
    stop_item(&mut store, &owner, 3).unwrap();
    for key in 1..=3u64 {
        let before = get_item(&store, key);
        assert_eq!(
            edit_item(&mut store, &stranger, key, String::from("mine")),
            Err(AuctionError::AccessRejected)
        );
        assert_eq!(stop_item(&mut store, &stranger, key), Err(AuctionError::AccessRejected));
        assert_eq!(get_item(&store, key), before);
    }
}

#[test]
fn stop_gives_the_item_to_the_highest_bidder() {
    let mut store = ItemStore::open().unwrap();
    let owner = id(&[1]);
    let x = id(&[20]);
    let y = id(&[21]);
    open_with_bid(&mut store, &owner, 3, &x, 20);
    assert_eq!(bid_item(&mut store, &y, 3, 30), Ok(()));
    assert_eq!(stop_item(&mut store, &owner, 3), Ok(()));
    let item = get_item(&store, 3).unwrap();
    assert_eq!(item.new_owner(), Some(&y));
    assert!(!item.is_active());
    assert!(bid_item(&mut store, &x, 3, 40).is_err());
    assert_eq!(bid_item(&mut store, &x, 3, 40), Err(AuctionError::ItemIsNotActive));
    assert_eq!(get_item(&store, 3), Some(item));
}

#[test]
fn the_highest_bidder_is_found_by_amount_not_by_identity() {
    let mut store = ItemStore::open().unwrap();
    let owner = id(&[1]);
    let first_in_order = id(&[2]);
    let last_in_order = id(&[9, 9]);
    open_with_bid(&mut store, &owner, 3, &last_in_order, 20);
    assert_eq!(bid_item(&mut store, &first_in_order, 3, 30), Ok(()));
    assert_eq!(stop_item(&mut store, &owner, 3), Ok(()));
    assert_eq!(get_item(&store, 3).unwrap().new_owner(), Some(&first_in_order));
}

#[test]
fn stop_of_an_item_without_bids_is_refused() {
    let mut store = ItemStore::open().unwrap();
    let owner = id(&[1]);
    create(&mut store, &owner, 3, "desc");
    assert_eq!(stop_item(&mut store, &owner, 3), Err(AuctionError::NoSuchItem));
    assert!(get_item(&store, 3).unwrap().is_active());
}

#[test]
fn stop_of_a_missing_item_is_refused() {
    let mut store = ItemStore::open().unwrap();
    assert_eq!(stop_item(&mut store, &id(&[1]), 3), Err(AuctionError::NoSuchItem));
}

#[test]
fn stop_twice_leaves_the_item_as_the_first_stop_left_it() {
    let mut store = ItemStore::open().unwrap();
    let owner = id(&[1]);
    open_with_bid(&mut store, &owner, 3, &id(&[2]), 5);
    assert_eq!(stop_item(&mut store, &owner, 3), Ok(()));
    let closed = get_item(&store, 3);
    assert_eq!(stop_item(&mut store, &owner, 3), Ok(()));
    assert_eq!(get_item(&store, 3), closed);
}

#[test]
fn the_item_sold_for_the_most_is_found() {
    let mut store = ItemStore::open().unwrap();
    let owner = id(&[1]);
    let bidder = id(&[2]);
    open_with_bid(&mut store, &owner, 1, &bidder, 10);
    open_with_bid(&mut store, &owner, 2, &bidder, 10);
    assert_eq!(bid_item(&mut store, &bidder, 1, 30), Ok(()));
    assert_eq!(bid_item(&mut store, &bidder, 2, 50), Ok(()));
    assert_eq!(stop_item(&mut store, &owner, 1), Ok(()));
    assert_eq!(stop_item(&mut store, &owner, 2), Ok(()));
    let best = get_item_sold_for_the_most(&store).unwrap();
    assert_eq!(best, get_item(&store, 2));
    assert_eq!(best.unwrap().bids().top().unwrap().amount, 50);
}

#[test]
fn open_items_do_not_count_as_sold() {
    let mut store = ItemStore::open().unwrap();
    let owner = id(&[1]);
    let bidder = id(&[2]);
    open_with_bid(&mut store, &owner, 1, &bidder, 30);
    open_with_bid(&mut store, &owner, 2, &bidder, 500);
    assert_eq!(stop_item(&mut store, &owner, 1), Ok(()));
    assert_eq!(get_item_sold_for_the_most(&store), Ok(get_item(&store, 1)));
}

#[test]
fn of_two_equal_sales_the_smaller_id_wins() {
    let mut store = ItemStore::open().unwrap();
    let owner = id(&[1]);
    let bidder = id(&[2]);
    open_with_bid(&mut store, &owner, 8, &bidder, 30);
    open_with_bid(&mut store, &owner, 4, &bidder, 30);
    stop_item(&mut store, &owner, 8).unwrap();
    stop_item(&mut store, &owner, 4).unwrap();
    assert_eq!(get_item_sold_for_the_most(&store), Ok(get_item(&store, 4)));
}

#[test]
fn without_a_sale_the_item_under_the_fallback_key_is_returned() {
    let mut store = ItemStore::open().unwrap();
    let owner = id(&[1]);
    assert_eq!(get_item_sold_for_the_most(&store), Ok(None));
    create(&mut store, &owner, 5, "five");
    assert_eq!(get_item_sold_for_the_most(&store), Ok(None));
    create(&mut store, &owner, 0, "zero");
    assert_eq!(get_item_sold_for_the_most(&store), Ok(get_item(&store, 0)));
}

#[test]
fn a_sale_for_nothing_does_not_count() {
    let mut store = ItemStore::open().unwrap();
    let owner = id(&[1]);
    open_with_bid(&mut store, &owner, 5, &id(&[2]), 0);
    stop_item(&mut store, &owner, 5).unwrap();
    assert_eq!(get_item_sold_for_the_most(&store), Ok(None));
}

#[test]
fn the_item_bid_on_the_most_is_found() {
    let mut store = ItemStore::open().unwrap();
    let owner = id(&[1]);
    let bidder = id(&[2]);
    open_with_bid(&mut store, &owner, 1, &bidder, 1);
    open_with_bid(&mut store, &owner, 2, &bidder, 1000);
    for amount in 2..=5u64 {
        assert_eq!(bid_item(&mut store, &bidder, 1, amount), Ok(()));
    }
    assert_eq!(bid_item(&mut store, &bidder, 2, 1_000_000), Ok(()));
    assert_eq!(get_item(&store, 1).unwrap().bid_count(), 5);
    assert_eq!(get_item(&store, 2).unwrap().bid_count(), 2);
    assert_eq!(get_item_bid_on_the_most(&store), get_item(&store, 1));
}

#[test]
fn of_two_items_with_equally_many_bids_the_smaller_id_wins() {
    let mut store = ItemStore::open().unwrap();
    let owner = id(&[1]);
    let bidder = id(&[2]);
    open_with_bid(&mut store, &owner, 9, &bidder, 1);
    open_with_bid(&mut store, &owner, 3, &bidder, 1);
    assert_eq!(get_item_bid_on_the_most(&store), get_item(&store, 3));
}

#[test]
fn without_a_bid_the_item_under_the_fallback_key_is_returned() {
    let mut store = ItemStore::open().unwrap();
    let owner = id(&[1]);
    assert_eq!(get_item_bid_on_the_most(&store), None);
    create(&mut store, &owner, 5, "five");
    assert_eq!(get_item_bid_on_the_most(&store), None);
    create(&mut store, &owner, 0, "zero");
    assert_eq!(get_item_bid_on_the_most(&store), get_item(&store, 0));
}

#[test]
fn accepted_amounts_rise_strictly() {
    let mut store = ItemStore::open().unwrap();
    let owner = id(&[1]);
    open_with_bid(&mut store, &owner, 1, &owner, 0);
    let attempts: [(u8, u64); 8] =
        [(2, 5), (3, 5), (2, 4), (3, 9), (4, 9), (2, 100), (3, 99), (4, 101)];
    let mut accepted: Vec<u64> = Vec::new();
    for (who, amount) in attempts {
        if bid_item(&mut store, &id(&[who]), 1, amount).is_ok() {
            accepted.push(amount);
        }
    }
    assert_eq!(accepted, vec![5, 9, 100, 101]);
    assert_eq!(get_item(&store, 1).unwrap().bid_count(), 5);
}
