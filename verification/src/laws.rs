use crate::auction::{bid_outcome, edit_outcome, highest_amount, stop_outcome};
use crate::bids::{
    bid_map, bidder_index, bids_sorted, has_bidder, lemma_bid_map_index, lemma_top_bid,
    lemma_with_bid_sorted, lemma_with_bid_tops, top_bid, BidView,
};
use crate::item::{AuctionError, ItemView};
use vstd::prelude::*;

verus! {

/// The items after one attempt to bid: the bid is taken where
/// [`bid_outcome`] accepts it, and nothing changes where it does not.
pub open spec fn after_attempt(items: Map<u64, ItemView>, key: u64, bid: BidView) -> Map<
    u64,
    ItemView,
> {
    if bid_outcome(items, key, bid.amount) is Ok {
        items.insert(key, items[key].after_bid(bid.bidder, bid.amount))
    } else {
        items
    }
}

/// The items after the attempts `bids` on the item `key`, one after the
/// other.
pub open spec fn after_attempts(items: Map<u64, ItemView>, key: u64, bids: Seq<BidView>) -> Map<
    u64,
    ItemView,
>
    decreases bids.len(),
{
    if bids.len() == 0 {
        items
    } else {
        after_attempt(after_attempts(items, key, bids.drop_last()), key, bids.last())
    }
}

/// The amounts of those of the attempts `bids` on the item `key` that are
/// accepted, in their order.
pub open spec fn accepted_amounts(items: Map<u64, ItemView>, key: u64, bids: Seq<BidView>) -> Seq<
    u64,
>
    decreases bids.len(),
{
    if bids.len() == 0 {
        Seq::empty()
    } else {
        let earlier = accepted_amounts(items, key, bids.drop_last());
        if bid_outcome(after_attempts(items, key, bids.drop_last()), key, bids.last().amount)
            is Ok {
            earlier.push(bids.last().amount)
        } else {
            earlier
        }
    }
}

/// An accepted bid exceeds every live bid of the item, and is the item's
/// highest bid afterwards.
pub proof fn lemma_accepted_bid_is_highest(
    items: Map<u64, ItemView>,
    key: u64,
    who: Seq<u8>,
    amount: u64,
)
    requires
        items.contains_key(key) ==> bids_sorted(items[key].bids),
        bid_outcome(items, key, amount) is Ok,
    ensures
        forall|bidder: Seq<u8>| #[trigger]
            bid_map(items[key].bids).contains_key(bidder) ==> bid_map(items[key].bids)[bidder]
                < amount,
        highest_amount(items[key].after_bid(who, amount)) == amount,
{
    let s = items[key].bids;
    lemma_top_bid(s);
    assert forall|bidder: Seq<u8>| #[trigger] bid_map(s).contains_key(bidder) implies bid_map(
        s,
    )[bidder] < amount by {
        let i = bidder_index(s, bidder);
        assert(has_bidder(s, bidder));
        lemma_bid_map_index(s, i);
        assert(s[i].amount <= top_bid(s).amount);
    }
    lemma_with_bid_tops(s, who, amount);
}

/// A bid that does not exceed the highest bid of an item is refused as
/// invalid.
pub proof fn lemma_low_bid_is_invalid(items: Map<u64, ItemView>, key: u64, amount: u64)
    requires
        items.contains_key(key),
        items[key].bids.len() > 0,
        amount <= highest_amount(items[key]),
    ensures
        bid_outcome(items, key, amount) == Err::<(), AuctionError>(AuctionError::InvalidBid),
        forall|who: Seq<u8>|
            after_attempt(items, key, BidView { bidder: who, amount }) == items,
{
}

proof fn lemma_attempts_keep_order(items: Map<u64, ItemView>, key: u64, bids: Seq<BidView>)
    requires
        items.contains_key(key) ==> bids_sorted(items[key].bids),
    ensures
        after_attempts(items, key, bids).contains_key(key) ==> bids_sorted(
            after_attempts(items, key, bids)[key].bids,
        ),
        accepted_amounts(items, key, bids).len() > 0 ==> {
            &&& after_attempts(items, key, bids).contains_key(key)
            &&& after_attempts(items, key, bids)[key].bids.len() > 0
            &&& highest_amount(after_attempts(items, key, bids)[key]) == accepted_amounts(
                items,
                key,
                bids,
            ).last()
        },
        forall|i: int, j: int|
            0 <= i < j < accepted_amounts(items, key, bids).len() ==> accepted_amounts(
                items,
                key,
                bids,
            )[i] < accepted_amounts(items, key, bids)[j],
    decreases bids.len(),
{
    if bids.len() > 0 {
        let earlier = bids.drop_last();
        lemma_attempts_keep_order(items, key, earlier);
        let before = after_attempts(items, key, earlier);
        let bid = bids.last();
        if bid_outcome(before, key, bid.amount) is Ok {
            lemma_with_bid_sorted(before[key].bids, bid.bidder, bid.amount);
            lemma_accepted_bid_is_highest(before, key, bid.bidder, bid.amount);
        }
    }
}

/// Whatever bids are attempted on an item, in whatever order, each accepted
/// amount is strictly greater than every amount accepted before it.
pub proof fn lemma_accepted_amounts_rise(items: Map<u64, ItemView>, key: u64, bids: Seq<BidView>)
    requires
        items.contains_key(key) ==> bids_sorted(items[key].bids),
    ensures
        forall|i: int, j: int|
            0 <= i < j < accepted_amounts(items, key, bids).len() ==> accepted_amounts(
                items,
                key,
                bids,
            )[i] < accepted_amounts(items, key, bids)[j],
{
    lemma_attempts_keep_order(items, key, bids);
}

/// Whoever is not the owner of an item can neither edit nor close it,
/// whatever state the item is in.
pub proof fn lemma_only_owner_edits_and_stops(items: Map<u64, ItemView>, key: u64, caller: Seq<u8>)
    requires
        items.contains_key(key),
        caller != items[key].owner,
    ensures
        edit_outcome(items, key, caller) == Err::<(), AuctionError>(AuctionError::AccessRejected),
        stop_outcome(items, key, caller) == Err::<(), AuctionError>(AuctionError::AccessRejected),
{
}

/// Once an item is closed it is inactive and belongs to the bidder of its
/// highest bid, which no bid of the item exceeds; nobody can bid on it or
/// edit it any more; and closing it again changes nothing.
pub proof fn lemma_closed_item_is_final(items: Map<u64, ItemView>, key: u64, caller: Seq<u8>)
    requires
        stop_outcome(items, key, caller) is Ok,
    ensures
        !items[key].closed().is_active,
        items[key].closed().new_owner == Some(top_bid(items[key].bids).bidder),
        has_bidder(items[key].bids, top_bid(items[key].bids).bidder),
        forall|i: int|
            0 <= i < items[key].bids.len() ==> (#[trigger] items[key].bids[i]).amount <= top_bid(
                items[key].bids,
            ).amount,
        forall|amount: u64| bid_outcome(items.insert(key, items[key].closed()), key, amount) is Err,
        forall|anyone: Seq<u8>|
            edit_outcome(items.insert(key, items[key].closed()), key, anyone) is Err,
        edit_outcome(items.insert(key, items[key].closed()), key, caller) == Err::<
            (),
            AuctionError,
        >(AuctionError::ItemIsNotActive),
        stop_outcome(items.insert(key, items[key].closed()), key, caller) is Ok,
        items[key].closed().closed() == items[key].closed(),
{
    let s = items[key].bids;
    lemma_top_bid(s);
    let i = choose|i: int| crate::bids::is_top_bid(s, i);
    assert(s[i] == top_bid(s));
}

/// A bid, an edit and a close leave the owner of an item as it was, and only
/// a bid is counted: by one.
pub proof fn lemma_updates_keep_owner(
    item: ItemView,
    who: Seq<u8>,
    amount: u64,
    description: Seq<char>,
)
    ensures
        item.after_bid(who, amount).owner == item.owner,
        item.edited(description).owner == item.owner,
        item.closed().owner == item.owner,
        item.after_bid(who, amount).bid_count == item.bid_count + 1,
        item.edited(description).bid_count == item.bid_count,
        item.closed().bid_count == item.bid_count,
{
}

/// Creating an item adds its id to the ids of the store: where the ids of
/// the store are those of `created`, they are afterwards those of `created`
/// and `key`, and the number of items grows by one exactly when `key` is new.
pub proof fn lemma_create_counts_ids(
    items: Map<u64, ItemView>,
    created: Seq<u64>,
    key: u64,
    item: ItemView,
)
    requires
        items.dom() == created.to_set(),
    ensures
        items.insert(key, item).dom() == created.push(key).to_set(),
        items.insert(key, item).dom().len() == items.dom().len() + (if items.contains_key(key) {
            0int
        } else {
            1int
        }),
{
    vstd::seq_lib::seq_to_set_is_finite(created);
    let after = items.insert(key, item).dom();
    let grown = created.push(key).to_set();
    assert forall|k: u64| #[trigger] after.contains(k) <==> grown.contains(k) by {
        assert(after.contains(k) <==> (k == key || items.dom().contains(k)));
        assert(items.dom().contains(k) <==> created.to_set().contains(k));
        assert(created.to_set().contains(k) <==> created.contains(k));
        assert(grown.contains(k) <==> created.push(key).contains(k));
        if created.contains(k) {
            let i = choose|i: int| 0 <= i < created.len() && created[i] == k;
            assert(created.push(key)[i] == k);
        }
        if k == key {
            assert(created.push(key)[created.len() as int] == k);
        }
        if created.push(key).contains(k) {
            let i = choose|i: int| 0 <= i < created.push(key).len() && created.push(key)[i] == k;
            if i < created.len() {
                assert(created[i] == k);
            }
        }
    }
    assert(after =~= grown);
    assert(after =~= items.dom().insert(key));
}

/// A bid, an edit and a close keep the ids of the store: replacing the item
/// of an id that is there leaves the ids and their number as they were.
pub proof fn lemma_update_keeps_ids(items: Map<u64, ItemView>, key: u64, item: ItemView)
    requires
        items.contains_key(key),
    ensures
        items.insert(key, item).dom() == items.dom(),
{
    assert(items.insert(key, item).dom() =~= items.dom());
}

} // verus!
