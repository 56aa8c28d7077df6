use crate::bids::{
    bids_wf, has_bidder, lemma_top_bid, lemma_with_bid_sorted, top_bid, with_bid, BidView, Bids,
    MAX_BIDDERS,
};
use crate::identity::{Identity, MAX_IDENTITY_LEN};
use vstd::prelude::*;
use vstd::utf8::encode_utf8;

verus! {

/// The longest description, in bytes of its UTF-8 form.
pub const MAX_DESCRIPTION_BYTES: usize = 1024;

/// Why an operation of the auction was refused.
#[derive(Debug, Clone, Copy, PartialEq, Eq, Structural)]
pub enum AuctionError {
    /// The amount does not exceed the highest bid.
    InvalidBid,
    /// The item is closed.
    ItemIsNotActive,
    /// No item has the id, or the item has no bid to go by.
    NoSuchItem,
    /// The caller does not own the item.
    AccessRejected,
    /// The store had lost the record between reading and writing it.
    UpdateError,
}

/// One auctionable item.
#[derive(Debug, PartialEq, Eq)]
pub struct Item {
    description: String,
    is_active: bool,
    owner: Identity,
    new_owner: Option<Identity>,
    bid_count: u32,
    bids: Bids,
}

/// The mathematical value of an [`Item`].
pub ghost struct ItemView {
    pub description: Seq<char>,
    pub is_active: bool,
    pub owner: Seq<u8>,
    pub new_owner: Option<Seq<u8>>,
    pub bid_count: nat,
    pub bids: Seq<BidView>,
}

impl ItemView {
    /// What holds of every item: the sizes are within their limits, the bids
    /// are in order, an active item has no new owner, and an item with a new
    /// owner has a bid.
    pub open spec fn wf(self) -> bool {
        &&& encode_utf8(self.description).len() <= MAX_DESCRIPTION_BYTES
        &&& self.owner.len() <= MAX_IDENTITY_LEN
        &&& self.new_owner is Some ==> self.new_owner->Some_0.len() <= MAX_IDENTITY_LEN
        &&& self.bid_count <= u32::MAX
        &&& bids_wf(self.bids)
        &&& self.is_active ==> self.new_owner is None
        &&& self.new_owner is Some ==> self.bids.len() > 0
    }

    /// The item as `owner` creates it: no bids, no new owner.
    pub open spec fn created(owner: Seq<u8>, description: Seq<char>, is_active: bool) -> ItemView {
        ItemView {
            description,
            is_active,
            owner,
            new_owner: None,
            bid_count: 0,
            bids: Seq::empty(),
        }
    }

    /// There is room to take a bid of `who`: the counter can still grow, and
    /// `who` either has a bid already or can be added to the bidders.
    pub open spec fn has_room_for(self, who: Seq<u8>) -> bool {
        &&& self.bid_count < u32::MAX
        &&& has_bidder(self.bids, who) || self.bids.len() < MAX_BIDDERS
    }

    /// The item after `who` has bid `amount`.
    pub open spec fn after_bid(self, who: Seq<u8>, amount: u64) -> ItemView {
        ItemView { bid_count: self.bid_count + 1, bids: with_bid(self.bids, who, amount), ..self }
    }

    /// The item with another description.
    pub open spec fn edited(self, description: Seq<char>) -> ItemView {
        ItemView { description, ..self }
    }

    /// The item closed: inactive, and owned by the highest bidder.
    pub open spec fn closed(self) -> ItemView {
        ItemView { is_active: false, new_owner: Some(top_bid(self.bids).bidder), ..self }
    }

    /// A bid that there is room for leaves the item well formed.
    pub proof fn lemma_after_bid_wf(self, who: Seq<u8>, amount: u64)
        requires
            self.wf(),
            who.len() <= MAX_IDENTITY_LEN,
            self.has_room_for(who),
        ensures
            self.after_bid(who, amount).wf(),
    {
        lemma_with_bid_sorted(self.bids, who, amount);
    }

    /// Closing an item that has a bid leaves it well formed.
    pub proof fn lemma_closed_wf(self)
        requires
            self.wf(),
            self.bids.len() > 0,
        ensures
            self.closed().wf(),
    {
        lemma_top_bid(self.bids);
        let i = choose|i: int| crate::bids::is_top_bid(self.bids, i);
        assert(self.bids[i].bidder.len() <= MAX_IDENTITY_LEN);
    }
}

/// Whether `description` is short enough for an item.
pub fn description_fits(description: &String) -> (fits: bool)
    ensures
        fits == (encode_utf8(description@).len() <= MAX_DESCRIPTION_BYTES),
{
    description.as_str().as_bytes().len() <= MAX_DESCRIPTION_BYTES
}

impl View for Item {
    type V = ItemView;

    closed spec fn view(&self) -> ItemView {
        ItemView {
            description: self.description@,
            is_active: self.is_active,
            owner: self.owner@,
            new_owner: match self.new_owner {
                Some(identity) => Some(identity@),
                None => None,
            },
            bid_count: self.bid_count as nat,
            bids: self.bids@,
        }
    }
}

impl Item {
    /// The item is well formed when its value is.
    pub open spec fn wf(&self) -> bool {
        self@.wf()
    }

    /// A new item of `owner`, without bids.
    pub fn new(description: String, is_active: bool, owner: Identity) -> (item: Item)
        requires
            encode_utf8(description@).len() <= MAX_DESCRIPTION_BYTES,
            owner.wf(),
        ensures
            item@ == ItemView::created(owner@, description@, is_active),
            item.wf(),
    {
        Item { description, is_active, owner, new_owner: None, bid_count: 0, bids: Bids::new() }
    }

    /// The item with the given fields, if together they make a well-formed
    /// item.
    pub fn from_parts(
        description: String,
        is_active: bool,
        owner: Identity,
        new_owner: Option<Identity>,
        bid_count: u32,
        bids: Bids,
    ) -> (made: Option<Item>)
        requires
            owner.wf(),
            new_owner is Some ==> new_owner->Some_0.wf(),
            bids.wf(),
        ensures
            made is Some <==> (ItemView {
                description: description@,
                is_active,
                owner: owner@,
                new_owner: match new_owner {
                    Some(identity) => Some(identity@),
                    None => None,
                },
                bid_count: bid_count as nat,
                bids: bids@,
            }).wf(),
            made is Some ==> made->Some_0.wf() && made->Some_0@ == (ItemView {
                description: description@,
                is_active,
                owner: owner@,
                new_owner: match new_owner {
                    Some(identity) => Some(identity@),
                    None => None,
                },
                bid_count: bid_count as nat,
                bids: bids@,
            }),
    {
        if !description_fits(&description) {
            return None;
        }
        if is_active && new_owner.is_some() {
            return None;
        }
        if new_owner.is_some() && bids.len() == 0 {
            return None;
        }
        Some(Item { description, is_active, owner, new_owner, bid_count, bids })
    }

    /// The description.
    pub fn description(&self) -> (description: &String)
        ensures
            description@ == self@.description,
    {
        &self.description
    }

    /// Whether bidding is open.
    pub fn is_active(&self) -> (active: bool)
        ensures
            active == self@.is_active,
    {
        self.is_active
    }

    /// The creator of the item.
    pub fn owner(&self) -> (owner: &Identity)
        ensures
            owner@ == self@.owner,
    {
        &self.owner
    }

    /// The bidder that the item went to, once it is closed.
    pub fn new_owner(&self) -> (new_owner: Option<&Identity>)
        ensures
            new_owner is Some <==> self@.new_owner is Some,
            new_owner is Some ==> new_owner->Some_0@ == self@.new_owner->Some_0,
    {
        self.new_owner.as_ref()
    }

    /// The number of bids accepted so far.
    pub fn bid_count(&self) -> (count: u32)
        ensures
            count == self@.bid_count,
    {
        self.bid_count
    }

    /// The live bids.
    pub fn bids(&self) -> (bids: &Bids)
        ensures
            bids@ == self@.bids,
    {
        &self.bids
    }

    /// Whether there is room to take a bid of `who`.
    pub fn has_room_for(&self, who: &Identity) -> (room: bool)
        requires
            self.wf(),
        ensures
            room == self@.has_room_for(who@),
    {
        self.bid_count < u32::MAX && self.bids.has_room_for(who)
    }

    /// Takes a bid: sets the bid of `bidder` to `amount` and counts it.
    pub fn record_bid(&mut self, bidder: Identity, amount: u64)
        requires
            old(self).wf(),
            bidder.wf(),
            old(self)@.has_room_for(bidder@),
        ensures
            final(self)@ == old(self)@.after_bid(bidder@, amount),
            final(self).wf(),
    {
        proof {
            self@.lemma_after_bid_wf(bidder@, amount);
        }
        self.bids.set(bidder, amount);
        self.bid_count = self.bid_count + 1;
    }

    /// Replaces the description.
    pub fn set_description(&mut self, description: String)
        requires
            old(self).wf(),
            encode_utf8(description@).len() <= MAX_DESCRIPTION_BYTES,
        ensures
            final(self)@ == old(self)@.edited(description@),
            final(self).wf(),
    {
        self.description = description;
    }

    /// Closes the item in favour of its highest bidder.
    pub fn close(&mut self)
        requires
            old(self).wf(),
            old(self)@.bids.len() > 0,
        ensures
            final(self)@ == old(self)@.closed(),
            final(self).wf(),
    {
        proof {
            self@.lemma_closed_wf();
        }
        let winner = match self.bids.top() {
            Some(bid) => Some(bid.bidder.clone()),
            None => None,
        };
        self.is_active = false;
        self.new_owner = winner;
    }
}

impl Clone for Item {
    fn clone(&self) -> (copy: Self)
        ensures
            copy@ == self@,
    {
        Item {
            description: self.description.clone(),
            is_active: self.is_active,
            owner: self.owner.clone(),
            new_owner: match &self.new_owner {
                Some(identity) => Some(identity.clone()),
                None => None,
            },
            bid_count: self.bid_count,
            bids: self.bids.clone(),
        }
    }
}

} // verus!
