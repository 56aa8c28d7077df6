use crate::identity::{
    identity_lt, lemma_identity_lt_asymmetric, lemma_identity_lt_irreflexive,
    lemma_identity_lt_total, lemma_identity_lt_transitive, Identity, Placement, MAX_IDENTITY_LEN,
};
use vstd::prelude::*;

verus! {

/// The most bidders that one item can have.
pub const MAX_BIDDERS: usize = 100;

/// One live bid: a bidder and the amount of that bidder's latest bid.
#[derive(Debug, PartialEq, Eq)]
pub struct Bid {
    pub bidder: Identity,
    pub amount: u64,
}

/// The mathematical value of a [`Bid`].
pub ghost struct BidView {
    pub bidder: Seq<u8>,
    pub amount: u64,
}

impl View for Bid {
    type V = BidView;

    open spec fn view(&self) -> BidView {
        BidView { bidder: self.bidder@, amount: self.amount }
    }
}

impl Clone for Bid {
    fn clone(&self) -> (copy: Self)
        ensures
            copy@ == self@,
    {
        Bid { bidder: self.bidder.clone(), amount: self.amount }
    }
}

/// The bid map of an item: one bid for each bidder, kept in the order of the
/// bidders' identities. Its view is the sequence of the bids in that order.
#[derive(Debug, PartialEq, Eq)]
pub struct Bids {
    entries: Vec<Bid>,
}

/// The bidders come in strictly ascending order, so none occurs twice.
pub open spec fn bids_sorted(s: Seq<BidView>) -> bool {
    forall|i: int, j: int|
        0 <= i < j < s.len() ==> identity_lt((#[trigger] s[i]).bidder, (#[trigger] s[j]).bidder)
}

/// Every bidder is a well-formed identity.
pub open spec fn bidders_wf(s: Seq<BidView>) -> bool {
    forall|i: int| 0 <= i < s.len() ==> (#[trigger] s[i]).bidder.len() <= MAX_IDENTITY_LEN
}

/// A well-formed bid sequence: sorted, of well-formed identities, and of at
/// most [`MAX_BIDDERS`] bids.
pub open spec fn bids_wf(s: Seq<BidView>) -> bool {
    &&& bids_sorted(s)
    &&& bidders_wf(s)
    &&& s.len() <= MAX_BIDDERS
}

/// `who` has a bid in `s`.
pub open spec fn has_bidder(s: Seq<BidView>, who: Seq<u8>) -> bool {
    exists|i: int| 0 <= i < s.len() && (#[trigger] s[i]).bidder == who
}

/// The index of the bid of `who` in `s`.
pub open spec fn bidder_index(s: Seq<BidView>, who: Seq<u8>) -> int {
    choose|i: int| 0 <= i < s.len() && (#[trigger] s[i]).bidder == who
}

/// The bids as a mapping from bidder to amount.
pub open spec fn bid_map(s: Seq<BidView>) -> Map<Seq<u8>, u64> {
    Map::new(|who: Seq<u8>| has_bidder(s, who), |who: Seq<u8>| s[bidder_index(s, who)].amount)
}

/// The bids after `who` has bid `amount`: the bid of `who` is replaced, or
/// added at its place in the order.
pub open spec fn with_bid(s: Seq<BidView>, who: Seq<u8>, amount: u64) -> Seq<BidView>
    decreases s.len(),
{
    let bid = BidView { bidder: who, amount };
    if s.len() == 0 {
        seq![bid]
    } else if s[0].bidder == who {
        seq![bid] + s.drop_first()
    } else if identity_lt(s[0].bidder, who) {
        seq![s[0]] + with_bid(s.drop_first(), who, amount)
    } else {
        seq![bid] + s
    }
}

/// The bid at index `i` is the highest: no bid has a greater amount, and
/// every bid of the same amount comes before it.
pub open spec fn is_top_bid(s: Seq<BidView>, i: int) -> bool {
    &&& 0 <= i < s.len()
    &&& forall|j: int| 0 <= j < s.len() ==> (#[trigger] s[j]).amount <= s[i].amount
    &&& forall|j: int| i < j < s.len() ==> (#[trigger] s[j]).amount < s[i].amount
}

/// The highest bid of a sequence that is not empty.
pub open spec fn top_bid(s: Seq<BidView>) -> BidView {
    s[choose|i: int| is_top_bid(s, i)]
}

/// `p` is the place of `who` in `s`: the bids before it are of earlier
/// bidders, the bid at it is not.
pub open spec fn is_place(s: Seq<BidView>, who: Seq<u8>, p: int) -> bool {
    &&& 0 <= p <= s.len()
    &&& forall|j: int| 0 <= j < p ==> identity_lt((#[trigger] s[j]).bidder, who)
    &&& p < s.len() ==> !identity_lt(s[p].bidder, who)
}

/// Every bidder has a place in every sequence.
pub proof fn lemma_place_exists(s: Seq<BidView>, who: Seq<u8>, k: int)
    requires
        0 <= k <= s.len(),
        forall|j: int| 0 <= j < k ==> identity_lt((#[trigger] s[j]).bidder, who),
    ensures
        exists|p: int| is_place(s, who, p),
    decreases s.len() - k,
{
    if k == s.len() || !identity_lt(s[k].bidder, who) {
        assert(is_place(s, who, k));
    } else {
        lemma_place_exists(s, who, k + 1);
    }
}

/// With the place of `who` known, `with_bid` is one replacement or one
/// insertion at that place.
pub proof fn lemma_with_bid_at(s: Seq<BidView>, who: Seq<u8>, amount: u64, p: int)
    requires
        is_place(s, who, p),
    ensures
        with_bid(s, who, amount) == (if p < s.len() && s[p].bidder == who {
            s.update(p, BidView { bidder: who, amount })
        } else {
            s.insert(p, BidView { bidder: who, amount })
        }),
    decreases p,
{
    let bid = BidView { bidder: who, amount };
    if p == 0 {
        if s.len() == 0 {
            assert(seq![bid] =~= s.insert(0, bid));
        } else if s[0].bidder == who {
            assert(seq![bid] + s.drop_first() =~= s.update(0, bid));
        } else {
            assert(seq![bid] + s =~= s.insert(0, bid));
        }
    } else {
        let t = s.drop_first();
        lemma_identity_lt_irreflexive(who);
        assert(identity_lt(s[0].bidder, who));
        assert forall|j: int| 0 <= j < p - 1 implies identity_lt((#[trigger] t[j]).bidder, who) by {
            assert(t[j] == s[j + 1]);
        }
        assert(is_place(t, who, p - 1));
        lemma_with_bid_at(t, who, amount, p - 1);
        if p < s.len() && s[p].bidder == who {
            assert(seq![s[0]] + t.update(p - 1, bid) =~= s.update(p, bid));
        } else {
            assert(seq![s[0]] + t.insert(p - 1, bid) =~= s.insert(p, bid));
        }
    }
}

/// A bid keeps the sequence well ordered, and adds at most one entry.
pub proof fn lemma_with_bid_sorted(s: Seq<BidView>, who: Seq<u8>, amount: u64)
    requires
        bids_sorted(s),
    ensures
        bids_sorted(with_bid(s, who, amount)),
        with_bid(s, who, amount).len() == s.len() + (if has_bidder(s, who) { 0int } else { 1int }),
        bidders_wf(s) && who.len() <= MAX_IDENTITY_LEN ==> bidders_wf(with_bid(s, who, amount)),
{
    lemma_place_exists(s, who, 0);
    let p = choose|p: int| is_place(s, who, p);
    lemma_with_bid_at(s, who, amount, p);
    let r = with_bid(s, who, amount);
    if p < s.len() && s[p].bidder == who {
        assert(has_bidder(s, who));
        assert forall|i: int, j: int| 0 <= i < j < r.len() implies identity_lt(
            (#[trigger] r[i]).bidder,
            (#[trigger] r[j]).bidder,
        ) by {
            assert(r[i].bidder == s[i].bidder);
            assert(r[j].bidder == s[j].bidder);
        }
    } else {
        if p < s.len() {
            lemma_identity_lt_total(s[p].bidder, who);
        }
        assert forall|j: int| p <= j < s.len() implies identity_lt(who, (#[trigger] s[j]).bidder) by {
            if j > p {
                lemma_identity_lt_transitive(who, s[p].bidder, s[j].bidder);
            }
        }
        if has_bidder(s, who) {
            let i = bidder_index(s, who);
            lemma_identity_lt_irreflexive(who);
        }
        assert forall|i: int, j: int| 0 <= i < j < r.len() implies identity_lt(
            (#[trigger] r[i]).bidder,
            (#[trigger] r[j]).bidder,
        ) by {
            if j < p {
                assert(r[i] == s[i] && r[j] == s[j]);
            } else if j == p {
                assert(r[i] == s[i]);
            } else if i < p {
                assert(r[i] == s[i] && r[j] == s[j - 1]);
            } else if i == p {
                assert(r[j] == s[j - 1]);
            } else {
                assert(r[i] == s[i - 1] && r[j] == s[j - 1]);
            }
        }
    }
    if bidders_wf(s) && who.len() <= MAX_IDENTITY_LEN {
        assert forall|i: int| 0 <= i < r.len() implies (#[trigger] r[i]).bidder.len()
            <= MAX_IDENTITY_LEN by {
            if p < s.len() && s[p].bidder == who {
                if i != p {
                    assert(r[i] == s[i]);
                }
            } else {
                if i < p {
                    assert(r[i] == s[i]);
                } else if i > p {
                    assert(r[i] == s[i - 1]);
                }
            }
        }
    }
}

/// In a sorted sequence each bidder is mapped to the amount of its own bid.
pub proof fn lemma_bid_map_index(s: Seq<BidView>, i: int)
    requires
        bids_sorted(s),
        0 <= i < s.len(),
    ensures
        bid_map(s).contains_key(s[i].bidder),
        bid_map(s)[s[i].bidder] == s[i].amount,
        bidder_index(s, s[i].bidder) == i,
{
    let who = s[i].bidder;
    assert(has_bidder(s, who));
    let k = bidder_index(s, who);
    lemma_identity_lt_irreflexive(who);
    if k < i {
        assert(identity_lt(s[k].bidder, s[i].bidder));
    } else if i < k {
        assert(identity_lt(s[i].bidder, s[k].bidder));
    }
}

/// As a mapping, a bid is an insertion: the bidder is mapped to the new
/// amount and every other bidder keeps its own.
pub proof fn lemma_with_bid_map(s: Seq<BidView>, who: Seq<u8>, amount: u64)
    requires
        bids_sorted(s),
    ensures
        bid_map(with_bid(s, who, amount)) == bid_map(s).insert(who, amount),
{
    lemma_place_exists(s, who, 0);
    let p = choose|p: int| is_place(s, who, p);
    lemma_with_bid_at(s, who, amount, p);
    lemma_with_bid_sorted(s, who, amount);
    let r = with_bid(s, who, amount);
    let replaced = p < s.len() && s[p].bidder == who;
    assert(r[p] == BidView { bidder: who, amount });
    lemma_bid_map_index(r, p);
    assert forall|k: Seq<u8>| bid_map(r).contains_key(k) implies k == who || has_bidder(s, k) by {
        let i = bidder_index(r, k);
        if i != p {
            if replaced || i < p {
                assert(r[i] == s[i]);
            } else {
                assert(r[i] == s[i - 1]);
            }
        }
    }
    assert forall|k: Seq<u8>| k != who && has_bidder(s, k) implies bid_map(r).contains_key(k)
        && bid_map(r)[k] == bid_map(s)[k] by {
        let i = bidder_index(s, k);
        lemma_bid_map_index(s, i);
        let i2 = if replaced || i < p { i } else { i + 1 };
        assert(r[i2] == s[i]);
        lemma_bid_map_index(r, i2);
    }
    assert(bid_map(r) =~= bid_map(s).insert(who, amount));
}

/// A sequence that is not empty has exactly one highest bid.
pub proof fn lemma_top_bid(s: Seq<BidView>)
    requires
        s.len() > 0,
    ensures
        exists|i: int| is_top_bid(s, i),
        forall|i: int| is_top_bid(s, i) ==> s[i] == top_bid(s),
        forall|j: int| 0 <= j < s.len() ==> (#[trigger] s[j]).amount <= top_bid(s).amount,
    decreases s.len(),
{
    if s.len() == 1 {
        assert(is_top_bid(s, 0));
    } else {
        let t = s.drop_last();
        lemma_top_bid(t);
        let k = choose|k: int| is_top_bid(t, k);
        let n = s.len() - 1;
        if s[n].amount >= t[k].amount {
            assert forall|j: int| 0 <= j < s.len() implies (#[trigger] s[j]).amount
                <= s[n].amount by {
                if j < n {
                    assert(t[j] == s[j]);
                }
            }
            assert(is_top_bid(s, n));
        } else {
            assert forall|j: int| 0 <= j < s.len() implies (#[trigger] s[j]).amount
                <= s[k].amount by {
                if j < n {
                    assert(t[j] == s[j]);
                }
            }
            assert forall|j: int| k < j < s.len() implies (#[trigger] s[j]).amount
                < s[k].amount by {
                if j < n {
                    assert(t[j] == s[j]);
                }
            }
            assert(is_top_bid(s, k));
        }
    }
    let c = choose|i: int| is_top_bid(s, i);
    assert forall|i: int| is_top_bid(s, i) implies s[i] == top_bid(s) by {
        if i < c {
            assert(s[c].amount < s[i].amount);
        } else if c < i {
            assert(s[i].amount < s[c].amount);
        }
    }
}

/// A bid above every bid of the sequence becomes its highest bid.
pub proof fn lemma_with_bid_tops(s: Seq<BidView>, who: Seq<u8>, amount: u64)
    requires
        s.len() > 0 ==> amount > top_bid(s).amount,
    ensures
        top_bid(with_bid(s, who, amount)) == (BidView { bidder: who, amount }),
{
    lemma_place_exists(s, who, 0);
    let p = choose|p: int| is_place(s, who, p);
    lemma_with_bid_at(s, who, amount, p);
    let r = with_bid(s, who, amount);
    let replaced = p < s.len() && s[p].bidder == who;
    if s.len() > 0 {
        lemma_top_bid(s);
    }
    assert forall|j: int| 0 <= j < r.len() && j != p implies (#[trigger] r[j]).amount < amount by {
        if replaced || j < p {
            assert(r[j] == s[j]);
        } else {
            assert(r[j] == s[j - 1]);
        }
    }
    assert(is_top_bid(r, p));
    lemma_top_bid(r);
}

impl View for Bids {
    type V = Seq<BidView>;

    closed spec fn view(&self) -> Seq<BidView> {
        Seq::new(self.entries@.len(), |i: int| self.entries@[i]@)
    }
}

impl Bids {
    /// The bids are well formed when their sequence is.
    pub open spec fn wf(&self) -> bool {
        bids_wf(self@)
    }

    /// No bids.
    pub fn new() -> (bids: Bids)
        ensures
            bids@ == Seq::<BidView>::empty(),
            bids.wf(),
    {
        let bids = Bids { entries: Vec::new() };
        assert(bids@ =~= Seq::<BidView>::empty());
        bids
    }

    /// The bid map that holds `entries`, if they are in the strict order of
    /// their bidders and not too many.
    pub fn from_entries(entries: Vec<Bid>) -> (made: Option<Bids>)
        ensures
            made is Some <==> bids_wf(Seq::new(entries@.len(), |i: int| entries@[i]@)),
            made is Some ==> made->Some_0@ == Seq::new(entries@.len(), |i: int| entries@[i]@)
                && made->Some_0.wf(),
    {
        let ghost s = Seq::new(entries@.len(), |i: int| entries@[i]@);
        if entries.len() > MAX_BIDDERS {
            return None;
        }
        let mut i: usize = 0;
        while i < entries.len()
            invariant
                i <= entries@.len(),
                s == Seq::new(entries@.len(), |i: int| entries@[i]@),
                bids_sorted(s.take(i as int)),
                bidders_wf(s.take(i as int)),
            decreases entries@.len() - i,
        {
            assert(s[i as int] == entries@[i as int]@);
            if entries[i].bidder.len() > MAX_IDENTITY_LEN {
                return None;
            }
            if i > 0 {
                assert(s[i - 1] == entries@[i - 1]@);
                if entries[i - 1].bidder.compare(&entries[i].bidder) != Placement::Before {
                    return None;
                }
            }
            proof {
                let t = s.take(i as int + 1);
                assert forall|a: int, b: int| 0 <= a < b < t.len() implies identity_lt(
                    (#[trigger] t[a]).bidder,
                    (#[trigger] t[b]).bidder,
                ) by {
                    if b < i {
                        assert(s.take(i as int)[a] == t[a] && s.take(i as int)[b] == t[b]);
                    } else if a < i - 1 {
                        assert(s.take(i as int)[a] == t[a] && s.take(i as int)[i - 1] == t[i - 1]);
                        lemma_identity_lt_transitive(t[a].bidder, t[i - 1].bidder, t[b].bidder);
                    }
                }
                assert forall|a: int| 0 <= a < t.len() implies (#[trigger] t[a]).bidder.len()
                    <= MAX_IDENTITY_LEN by {
                    if a < i {
                        assert(s.take(i as int)[a] == t[a]);
                    }
                }
            }
            i += 1;
        }
        assert(s.take(i as int) =~= s);
        Some(Bids { entries })
    }

    /// The number of bidders.
    pub fn len(&self) -> (n: usize)
        ensures
            n == self@.len(),
    {
        self.entries.len()
    }

    /// The bid at place `i` in the order of the bidders.
    pub fn entry(&self, i: usize) -> (bid: &Bid)
        requires
            i < self@.len(),
        ensures
            bid@ == self@[i as int],
    {
        &self.entries[i]
    }

    /// The place of `who` among the bidders, and whether `who` has a bid.
    fn place(&self, who: &Identity) -> (found: (usize, bool))
        ensures
            is_place(self@, who@, found.0 as int),
            found.1 == (found.0 < self@.len() && self@[found.0 as int].bidder == who@),
    {
        let mut i: usize = 0;
        while i < self.entries.len()
            invariant
                i <= self.entries@.len(),
                self@.len() == self.entries@.len(),
                forall|j: int| 0 <= j < i ==> identity_lt((#[trigger] self@[j]).bidder, who@),
            decreases self.entries@.len() - i,
        {
            assert(self@[i as int] == self.entries@[i as int]@);
            match self.entries[i].bidder.compare(who) {
                Placement::Before => {},
                Placement::Same => {
                    proof {
                        lemma_identity_lt_irreflexive(who@);
                    }
                    return (i, true);
                },
                Placement::After => {
                    proof {
                        lemma_identity_lt_asymmetric(who@, self@[i as int].bidder);
                    }
                    return (i, false);
                },
            }
            i += 1;
        }
        (i, false)
    }

    /// The amount that `who` has bid, if any.
    pub fn amount_of(&self, who: &Identity) -> (amount: Option<u64>)
        requires
            self.wf(),
        ensures
            amount == (if has_bidder(self@, who@) {
                Some(bid_map(self@)[who@])
            } else {
                None
            }),
    {
        let (p, found) = self.place(who);
        if found {
            proof {
                lemma_bid_map_index(self@, p as int);
            }
            Some(self.entries[p].amount)
        } else {
            proof {
                if has_bidder(self@, who@) {
                    let k = bidder_index(self@, who@);
                    lemma_identity_lt_irreflexive(who@);
                    if k > p {
                        lemma_identity_lt_total(self@[p as int].bidder, who@);
                        assert(identity_lt(self@[p as int].bidder, self@[k].bidder));
                        lemma_identity_lt_asymmetric(who@, self@[p as int].bidder);
                    }
                }
            }
            None
        }
    }

    /// Whether `who` can bid: it has a bid already, or there is room for
    /// one more bidder.
    pub fn has_room_for(&self, who: &Identity) -> (room: bool)
        requires
            self.wf(),
        ensures
            room == (has_bidder(self@, who@) || self@.len() < MAX_BIDDERS),
    {
        if self.entries.len() < MAX_BIDDERS {
            return true;
        }
        self.amount_of(who).is_some()
    }

    /// Sets the bid of `bidder` to `amount`.
    pub fn set(&mut self, bidder: Identity, amount: u64)
        requires
            old(self).wf(),
            bidder.wf(),
            has_bidder(old(self)@, bidder@) || old(self)@.len() < MAX_BIDDERS,
        ensures
            final(self)@ == with_bid(old(self)@, bidder@, amount),
            final(self).wf(),
    {
        let (p, found) = self.place(&bidder);
        proof {
            lemma_with_bid_at(self@, bidder@, amount, p as int);
            lemma_with_bid_sorted(self@, bidder@, amount);
        }
        let ghost before = self@;
        let ghost bid = BidView { bidder: bidder@, amount };
        if found {
            self.entries.set(p, Bid { bidder, amount });
            assert(self@ =~= before.update(p as int, bid));
        } else {
            self.entries.insert(p, Bid { bidder, amount });
            assert(self@ =~= before.insert(p as int, bid));
        }
    }

    /// The highest bid, if there is any bid.
    pub fn top(&self) -> (best: Option<&Bid>)
        ensures
            best is None <==> self@.len() == 0,
            best is Some ==> best->Some_0@ == top_bid(self@),
    {
        if self.entries.len() == 0 {
            return None;
        }
        let mut k: usize = 0;
        let mut i: usize = 1;
        while i < self.entries.len()
            invariant
                1 <= i <= self.entries@.len(),
                k < i,
                forall|j: int| 0 <= j < i ==> (#[trigger] self.entries@[j]).amount <= self.entries@[k as int].amount,
                forall|j: int| k < j < i ==> (#[trigger] self.entries@[j]).amount < self.entries@[k as int].amount,
            decreases self.entries@.len() - i,
        {
            if self.entries[i].amount >= self.entries[k].amount {
                k = i;
            }
            i += 1;
        }
        proof {
            assert forall|j: int| 0 <= j < self@.len() implies (#[trigger] self@[j]).amount
                <= self@[k as int].amount by {
                assert(self@[j] == self.entries@[j]@);
            }
            assert forall|j: int| k < j < self@.len() implies (#[trigger] self@[j]).amount
                < self@[k as int].amount by {
                assert(self@[j] == self.entries@[j]@);
            }
            assert(is_top_bid(self@, k as int));
            lemma_top_bid(self@);
        }
        Some(&self.entries[k])
    }
}

impl Clone for Bids {
    fn clone(&self) -> (copy: Self)
        ensures
            copy@ == self@,
    {
        let mut entries: Vec<Bid> = Vec::new();
        let mut i: usize = 0;
        while i < self.entries.len()
            invariant
                i <= self.entries@.len(),
                entries@.len() == i,
                forall|j: int| 0 <= j < i ==> (#[trigger] entries@[j])@ == self.entries@[j]@,
            decreases self.entries@.len() - i,
        {
            entries.push(self.entries[i].clone());
            i += 1;
        }
        let copy = Bids { entries };
        assert(copy@ =~= self@);
        copy
    }
}

} // verus!
