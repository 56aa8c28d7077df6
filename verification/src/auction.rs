use crate::bids::top_bid;
use crate::identity::Identity;
use crate::item::{AuctionError, Item, ItemView, MAX_DESCRIPTION_BYTES};
use crate::store::ItemStore;
use std::collections::BTreeMap;
use vstd::prelude::*;
use vstd::utf8::encode_utf8;

verus! {

/// What a creator says of a new item.
#[derive(Debug, PartialEq, Eq)]
pub struct CreateItem {
    pub description: String,
    pub is_active: bool,
}

/// The key that the two leaderboard queries fall back on when no item
/// qualifies.
pub const FALLBACK_KEY: u64 = 0;

/// The highest amount bid on an item that has a bid.
pub open spec fn highest_amount(item: ItemView) -> u64 {
    top_bid(item.bids).amount
}

/// How a bid of `amount` on the item `key` ends: there must be such an item,
/// it must have a bid already, `amount` must exceed its highest bid, and
/// bidding must be open.
pub open spec fn bid_outcome(items: Map<u64, ItemView>, key: u64, amount: u64) -> Result<
    (),
    AuctionError,
> {
    if !items.contains_key(key) {
        Err(AuctionError::NoSuchItem)
    } else if items[key].bids.len() == 0 {
        Err(AuctionError::NoSuchItem)
    } else if amount <= highest_amount(items[key]) {
        Err(AuctionError::InvalidBid)
    } else if !items[key].is_active {
        Err(AuctionError::ItemIsNotActive)
    } else {
        Ok(())
    }
}

/// How an edit of the item `key` by `caller` ends: there must be such an
/// item, `caller` must own it, and it must be active.
pub open spec fn edit_outcome(items: Map<u64, ItemView>, key: u64, caller: Seq<u8>) -> Result<
    (),
    AuctionError,
> {
    if !items.contains_key(key) {
        Err(AuctionError::NoSuchItem)
    } else if items[key].owner != caller {
        Err(AuctionError::AccessRejected)
    } else if !items[key].is_active {
        Err(AuctionError::ItemIsNotActive)
    } else {
        Ok(())
    }
}

/// How closing the item `key` by `caller` ends: there must be such an item,
/// `caller` must own it, and it must have a bid.
pub open spec fn stop_outcome(items: Map<u64, ItemView>, key: u64, caller: Seq<u8>) -> Result<
    (),
    AuctionError,
> {
    if !items.contains_key(key) {
        Err(AuctionError::NoSuchItem)
    } else if items[key].owner != caller {
        Err(AuctionError::AccessRejected)
    } else if items[key].bids.len() == 0 {
        Err(AuctionError::NoSuchItem)
    } else {
        Ok(())
    }
}

/// The item `key` is there and has gone to a new owner.
pub open spec fn is_sold(items: Map<u64, ItemView>, key: u64) -> bool {
    items.contains_key(key) && items[key].new_owner is Some
}

/// The item `key` is the one sold for the most: it is sold, for more than
/// nothing, no sold item went for more, and every sold item with a smaller id
/// went for less.
pub open spec fn is_top_sale(items: Map<u64, ItemView>, key: u64) -> bool {
    &&& is_sold(items, key)
    &&& highest_amount(items[key]) > 0
    &&& forall|other: u64| #[trigger]
        is_sold(items, other) ==> highest_amount(items[other]) <= highest_amount(items[key])
    &&& forall|other: u64|
        other < key && #[trigger] is_sold(items, other) ==> highest_amount(items[other])
            < highest_amount(items[key])
}

/// The id of the item sold for the most, or [`FALLBACK_KEY`] where no item
/// was sold for more than nothing.
pub open spec fn top_sale_key(items: Map<u64, ItemView>) -> u64 {
    if exists|key: u64| is_top_sale(items, key) {
        choose|key: u64| is_top_sale(items, key)
    } else {
        FALLBACK_KEY
    }
}

/// The item `key` is the one bid on the most: it has taken a bid, no item has
/// taken more, and every item with a smaller id has taken fewer.
pub open spec fn is_most_bid(items: Map<u64, ItemView>, key: u64) -> bool {
    &&& items.contains_key(key)
    &&& items[key].bid_count > 0
    &&& forall|other: u64| #[trigger]
        items.contains_key(other) ==> items[other].bid_count <= items[key].bid_count
    &&& forall|other: u64|
        other < key && #[trigger] items.contains_key(other) ==> items[other].bid_count
            < items[key].bid_count
}

/// The id of the item bid on the most, or [`FALLBACK_KEY`] where no item has
/// taken a bid.
pub open spec fn most_bid_key(items: Map<u64, ItemView>) -> u64 {
    if exists|key: u64| is_most_bid(items, key) {
        choose|key: u64| is_most_bid(items, key)
    } else {
        FALLBACK_KEY
    }
}

/// At most one item is the one sold for the most.
pub proof fn lemma_top_sale_unique(items: Map<u64, ItemView>, a: u64, b: u64)
    requires
        is_top_sale(items, a),
        is_top_sale(items, b),
    ensures
        a == b,
{
    assert(is_sold(items, a) && is_sold(items, b));
}

/// At most one item is the one bid on the most.
pub proof fn lemma_most_bid_unique(items: Map<u64, ItemView>, a: u64, b: u64)
    requires
        is_most_bid(items, a),
        is_most_bid(items, b),
    ensures
        a == b,
{
    assert(items.contains_key(a) && items.contains_key(b));
}

fn insert_item(map: &mut BTreeMap<u64, Item>, key: u64, item: Item)
    ensures
        final(map)@ == old(map)@.insert(key, item),
{
    broadcast use vstd::laws_cmp::group_laws_cmp;

    map.insert(key, item);
}

/// Every item with its id.
pub fn get_all_items(store: &ItemStore) -> (all: Option<BTreeMap<u64, Item>>)
    requires
        store.wf(),
    ensures
        all is Some,
        all->Some_0@.dom() == store@.dom(),
        forall|key: u64| #[trigger]
            store@.contains_key(key) ==> all->Some_0@[key]@ == store@[key] && all->Some_0@[key].wf(),
{
    let items = store.scan();
    let mut map: BTreeMap<u64, Item> = BTreeMap::new();
    let mut i: usize = 0;
    while i < items.len()
        invariant
            i <= items@.len(),
            forall|j: int|
                0 <= j < items@.len() ==> {
                    &&& store@.contains_key((#[trigger] items@[j]).0)
                    &&& items@[j].1@ == store@[items@[j].0]
                    &&& items@[j].1.wf()
                },
            forall|key: u64| #[trigger]
                map@.contains_key(key) <==> exists|j: int| 0 <= j < i && items@[j].0 == key,
            forall|key: u64| #[trigger]
                map@.contains_key(key) ==> map@[key]@ == store@[key] && map@[key].wf(),
        decreases items@.len() - i,
    {
        let key = items[i].0;
        let item = items[i].1.clone();
        let ghost before = map@;
        insert_item(&mut map, key, item);
        assert forall|k: u64| #[trigger] map@.contains_key(k) <==> exists|j: int|
            0 <= j < i + 1 && items@[j].0 == k by {
            if map@.contains_key(k) {
                if k == key {
                    assert(items@[i as int].0 == k);
                } else {
                    assert(before.contains_key(k));
                    let j = choose|j: int| 0 <= j < i && items@[j].0 == k;
                    assert(0 <= j < i + 1 && items@[j].0 == k);
                }
            }
            if exists|j: int| 0 <= j < i + 1 && items@[j].0 == k {
                let j = choose|j: int| 0 <= j < i + 1 && items@[j].0 == k;
                if j < i {
                    assert(before.contains_key(k));
                }
            }
        }
        i += 1;
    }
    proof {
        assert forall|key: u64| map@.contains_key(key) <==> store@.contains_key(key) by {
            if map@.contains_key(key) {
                let j = choose|j: int| 0 <= j < i && items@[j].0 == key;
                assert(store@.contains_key(items@[j].0));
            }
        }
        assert(map@.dom() =~= store@.dom());
    }
    Some(map)
}

/// The item `key`, if there is one.
pub fn get_item(store: &ItemStore, key: u64) -> (found: Option<Item>)
    requires
        store.wf(),
    ensures
        found is Some <==> store@.contains_key(key),
        found is Some ==> found->Some_0@ == store@[key] && found->Some_0.wf(),
{
    store.get(key)
}

/// The number of items.
pub fn get_item_count(store: &ItemStore) -> (n: u64)
    requires
        store.wf(),
    ensures
        n == store@.dom().len(),
{
    store.count()
}

/// The item sold for the most. Where no item was sold for more than nothing,
/// the item under [`FALLBACK_KEY`], if there is one. An item with a new
/// owner has a bid, so the query never fails.
pub fn get_item_sold_for_the_most(store: &ItemStore) -> (result: Result<Option<Item>, AuctionError>)
    requires
        store.wf(),
    ensures
        result is Ok,
        result->Ok_0 is Some <==> store@.contains_key(top_sale_key(store@)),
        result->Ok_0 is Some ==> result->Ok_0->Some_0@ == store@[top_sale_key(store@)]
            && result->Ok_0->Some_0.wf(),
{
    let items = store.scan();
    let mut highest_bid: u64 = 0;
    let mut highest_bid_item_key: u64 = FALLBACK_KEY;
    let ghost best: int = 0;
    let mut i: usize = 0;
    while i < items.len()
        invariant
            i <= items@.len(),
            forall|j: int|
                0 <= j < items@.len() ==> {
                    &&& store@.contains_key((#[trigger] items@[j]).0)
                    &&& items@[j].1@ == store@[items@[j].0]
                    &&& items@[j].1.wf()
                },
            forall|j: int|
                0 <= j < i && is_sold(store@, (#[trigger] items@[j]).0) ==> highest_amount(
                    store@[items@[j].0],
                ) <= highest_bid,
            highest_bid == 0 ==> highest_bid_item_key == FALLBACK_KEY,
            highest_bid > 0 ==> {
                &&& 0 <= best < i
                &&& items@[best].0 == highest_bid_item_key
                &&& is_sold(store@, highest_bid_item_key)
                &&& highest_amount(store@[highest_bid_item_key]) == highest_bid
                &&& forall|j: int|
                    0 <= j < best && is_sold(store@, (#[trigger] items@[j]).0) ==> highest_amount(
                        store@[items@[j].0],
                    ) < highest_bid
            },
        decreases items@.len() - i,
    {
        let key = items[i].0;
        let item = &items[i].1;
        assert(store@.contains_key(items@[i as int].0));
        if item.new_owner().is_some() {
            let last_bid = match item.bids().top() {
                Some(bid) => bid.amount,
                None => {
                    return Err(AuctionError::NoSuchItem);
                },
            };
            if last_bid > highest_bid {
                highest_bid = last_bid;
                highest_bid_item_key = key;
                proof {
                    best = i as int;
                }
            }
        }
        i += 1;
    }
    proof {
        let m = store@;
        if highest_bid > 0 {
            let k = highest_bid_item_key;
            assert forall|other: u64| #[trigger] is_sold(m, other) implies highest_amount(m[other])
                <= highest_amount(m[k]) by {
                let j = choose|j: int| 0 <= j < items@.len() && items@[j].0 == other;
                assert(is_sold(m, items@[j].0));
            }
            assert forall|other: u64| other < k && #[trigger] is_sold(m, other) implies
                highest_amount(m[other]) < highest_amount(m[k]) by {
                let j = choose|j: int| 0 <= j < items@.len() && items@[j].0 == other;
                assert(is_sold(m, items@[j].0));
                if j > best {
                    assert(items@[best].0 < items@[j].0);
                }
            }
            assert(is_top_sale(m, k));
            lemma_top_sale_unique(m, k, top_sale_key(m));
        } else {
            assert forall|k: u64| !is_top_sale(m, k) by {
                if is_top_sale(m, k) {
                    let j = choose|j: int| 0 <= j < items@.len() && items@[j].0 == k;
                    assert(is_sold(m, items@[j].0));
                }
            }
        }
    }
    Ok(store.get(highest_bid_item_key))
}

/// The item that has taken the most bids. Where no item has taken a bid, the
/// item under [`FALLBACK_KEY`], if there is one.
pub fn get_item_bid_on_the_most(store: &ItemStore) -> (found: Option<Item>)
    requires
        store.wf(),
    ensures
        found is Some <==> store@.contains_key(most_bid_key(store@)),
        found is Some ==> found->Some_0@ == store@[most_bid_key(store@)] && found->Some_0.wf(),
{
    let items = store.scan();
    let mut highest_length: u32 = 0;
    let mut highest_bid_length_item_key: u64 = FALLBACK_KEY;
    let ghost best: int = 0;
    let mut i: usize = 0;
    while i < items.len()
        invariant
            i <= items@.len(),
            forall|j: int|
                0 <= j < items@.len() ==> {
                    &&& store@.contains_key((#[trigger] items@[j]).0)
                    &&& items@[j].1@ == store@[items@[j].0]
                    &&& items@[j].1.wf()
                },
            forall|j: int|
                0 <= j < i ==> store@[(#[trigger] items@[j]).0].bid_count <= highest_length,
            highest_length == 0 ==> highest_bid_length_item_key == FALLBACK_KEY,
            highest_length > 0 ==> {
                &&& 0 <= best < i
                &&& items@[best].0 == highest_bid_length_item_key
                &&& store@[highest_bid_length_item_key].bid_count == highest_length
                &&& forall|j: int|
                    0 <= j < best ==> store@[(#[trigger] items@[j]).0].bid_count < highest_length
            },
        decreases items@.len() - i,
    {
        let key = items[i].0;
        let length = items[i].1.bid_count();
        assert(store@.contains_key(items@[i as int].0));
        if length > highest_length {
            highest_length = length;
            highest_bid_length_item_key = key;
            proof {
                best = i as int;
            }
        }
        i += 1;
    }
    proof {
        let m = store@;
        if highest_length > 0 {
            let k = highest_bid_length_item_key;
            assert(m.contains_key(items@[best].0));
            assert forall|other: u64| #[trigger] m.contains_key(other) implies m[other].bid_count
                <= m[k].bid_count by {
                let j = choose|j: int| 0 <= j < items@.len() && items@[j].0 == other;
                assert(m[items@[j].0].bid_count <= highest_length);
            }
            assert forall|other: u64| other < k && #[trigger] m.contains_key(other) implies
                m[other].bid_count < m[k].bid_count by {
                let j = choose|j: int| 0 <= j < items@.len() && items@[j].0 == other;
                if j > best {
                    assert(items@[best].0 < items@[j].0);
                }
                if j < best {
                    assert(m[items@[j].0].bid_count < highest_length);
                }
            }
            assert(is_most_bid(m, k));
            lemma_most_bid_unique(m, k, most_bid_key(m));
        } else {
            assert forall|k: u64| !is_most_bid(m, k) by {
                if is_most_bid(m, k) {
                    let j = choose|j: int| 0 <= j < items@.len() && items@[j].0 == k;
                    assert(m[items@[j].0].bid_count <= highest_length);
                }
            }
        }
    }
    store.get(highest_bid_length_item_key)
}

/// Creates the item `key` for `caller`, in place of any item that had the
/// id, and returns the item that had it.
pub fn create_item(store: &mut ItemStore, caller: &Identity, key: u64, item: CreateItem) -> (previous:
    Option<Item>)
    requires
        old(store).wf(),
        caller.wf(),
        encode_utf8(item.description@).len() <= MAX_DESCRIPTION_BYTES,
    ensures
        final(store).wf(),
        final(store)@ == old(store)@.insert(
            key,
            ItemView::created(caller@, item.description@, item.is_active),
        ),
        previous is Some <==> old(store)@.contains_key(key),
        previous is Some ==> previous->Some_0@ == old(store)@[key] && previous->Some_0.wf(),
{
    let value = Item::new(item.description, item.is_active, caller.clone());
    store.put(key, value)
}

/// Whether the item `key`, if there is one, has room to take a bid of
/// `caller`.
pub fn has_room_for_bid(store: &ItemStore, caller: &Identity, key: u64) -> (room: bool)
    requires
        store.wf(),
        caller.wf(),
    ensures
        room == (store@.contains_key(key) ==> store@[key].has_room_for(caller@)),
{
    match store.get(key) {
        Some(item) => item.has_room_for(caller),
        None => true,
    }
}

/// Bids `bid` on the item `key` for `caller`. The bid is taken when
/// [`bid_outcome`] says so: it becomes the bid of `caller` and is counted.
/// Otherwise nothing changes.
pub fn bid_item(store: &mut ItemStore, caller: &Identity, key: u64, bid: u64) -> (result: Result<
    (),
    AuctionError,
>)
    requires
        old(store).wf(),
        caller.wf(),
        bid_outcome(old(store)@, key, bid) is Ok ==> old(store)@[key].has_room_for(caller@),
    ensures
        final(store).wf(),
        result == bid_outcome(old(store)@, key, bid),
        result is Ok ==> final(store)@ == old(store)@.insert(
            key,
            old(store)@[key].after_bid(caller@, bid),
        ),
        result is Err ==> final(store)@ == old(store)@,
{
    let bidding_item_opt = store.get(key);
    let mut bidding_item = match bidding_item_opt {
        Some(value) => value,
        None => {
            return Err(AuctionError::NoSuchItem);
        },
    };
    let last_bid = match bidding_item.bids().top() {
        Some(value) => value.amount,
        None => {
            return Err(AuctionError::NoSuchItem);
        },
    };
    if bid <= last_bid {
        return Err(AuctionError::InvalidBid);
    }
    if !bidding_item.is_active() {
        return Err(AuctionError::ItemIsNotActive);
    }
    bidding_item.record_bid(caller.clone(), bid);
    let result = store.put(key, bidding_item);
    match result {
        Some(_) => Ok(()),
        None => Err(AuctionError::UpdateError),
    }
}

/// Replaces the description of the item `key` for `caller`, when
/// [`edit_outcome`] says so. Otherwise nothing changes.
pub fn edit_item(store: &mut ItemStore, caller: &Identity, key: u64, new_description: String) -> (result:
    Result<(), AuctionError>)
    requires
        old(store).wf(),
        edit_outcome(old(store)@, key, caller@) is Ok ==> encode_utf8(new_description@).len()
            <= MAX_DESCRIPTION_BYTES,
    ensures
        final(store).wf(),
        result == edit_outcome(old(store)@, key, caller@),
        result is Ok ==> final(store)@ == old(store)@.insert(
            key,
            old(store)@[key].edited(new_description@),
        ),
        result is Err ==> final(store)@ == old(store)@,
{
    let old_item_opt = store.get(key);
    let mut old_item = match old_item_opt {
        Some(value) => value,
        None => {
            return Err(AuctionError::NoSuchItem);
        },
    };
    if !caller.same_as(old_item.owner()) {
        return Err(AuctionError::AccessRejected);
    }
    if !old_item.is_active() {
        return Err(AuctionError::ItemIsNotActive);
    }
    old_item.set_description(new_description);
    let result = store.put(key, old_item);
    match result {
        Some(_) => Ok(()),
        None => Err(AuctionError::UpdateError),
    }
}

/// Closes the item `key` for `caller` in favour of its highest bidder, when
/// [`stop_outcome`] says so. Otherwise nothing changes.
pub fn stop_item(store: &mut ItemStore, caller: &Identity, key: u64) -> (result: Result<
    (),
    AuctionError,
>)
    requires
        old(store).wf(),
    ensures
        final(store).wf(),
        result == stop_outcome(old(store)@, key, caller@),
        result is Ok ==> final(store)@ == old(store)@.insert(key, old(store)@[key].closed()),
        result is Err ==> final(store)@ == old(store)@,
{
    let item_opt = store.get(key);
    let mut item = match item_opt {
        Some(value) => value,
        None => {
            return Err(AuctionError::NoSuchItem);
        },
    };
    if !caller.same_as(item.owner()) {
        return Err(AuctionError::AccessRejected);
    }
    if item.bids().len() == 0 {
        return Err(AuctionError::NoSuchItem);
    }
    item.close();
    let result = store.put(key, item);
    match result {
        Some(_) => Ok(()),
        None => Err(AuctionError::UpdateError),
    }
}

} // verus!
