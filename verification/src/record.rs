use crate::bids::{Bid, BidView, Bids};
use crate::identity::{Identity, MAX_IDENTITY_LEN};
use crate::item::{Item, ItemView};
use crate::stable::MAX_VALUE_SIZE;
use vstd::bytes::{
    lemma_auto_spec_u32_to_from_le_bytes, lemma_auto_spec_u64_to_from_le_bytes,
    spec_u32_from_le_bytes, spec_u32_to_le_bytes, spec_u64_from_le_bytes, spec_u64_to_le_bytes,
    u32_from_le_bytes, u32_to_le_bytes, u64_from_le_bytes, u64_to_le_bytes,
};
use vstd::prelude::*;
use vstd::slice::{slice_subrange, slice_to_vec};
use vstd::utf8::{
    decode_utf8, encode_utf8, encode_utf8_decode_utf8, encode_utf8_valid_utf8, valid_utf8,
};

verus! {

// The stored form of an item, field after field:
//
//   active flag      1 byte, 0 or 1
//   bid count        4 bytes, little endian
//   owner            an identity
//   new owner        1 byte, 0 or 1, and with 1 an identity
//   description      4 bytes of length, little endian, then UTF-8
//   bids             4 bytes of count, little endian, then the bids in the
//                    order of their bidders: an identity and 8 bytes of
//                    amount, little endian
//
// An identity is 1 byte of length and as many bytes.

/// The stored form of an identity.
pub open spec fn identity_bytes(id: Seq<u8>) -> Seq<u8> {
    seq![id.len() as u8] + id
}

/// The stored form of a flag.
pub open spec fn flag_bytes(flag: bool) -> Seq<u8> {
    seq![if flag { 1u8 } else { 0u8 }]
}

/// The stored form of the new owner.
pub open spec fn new_owner_bytes(new_owner: Option<Seq<u8>>) -> Seq<u8> {
    match new_owner {
        Some(id) => flag_bytes(true) + identity_bytes(id),
        None => flag_bytes(false),
    }
}

/// The stored form of one bid.
pub open spec fn bid_bytes(bid: BidView) -> Seq<u8> {
    identity_bytes(bid.bidder) + spec_u64_to_le_bytes(bid.amount)
}

/// The stored form of the bids, one after the other.
pub open spec fn bids_bytes(bids: Seq<BidView>) -> Seq<u8>
    decreases bids.len(),
{
    if bids.len() == 0 {
        Seq::empty()
    } else {
        bid_bytes(bids[0]) + bids_bytes(bids.drop_first())
    }
}

/// The stored form of a description.
pub open spec fn description_bytes(description: Seq<char>) -> Seq<u8> {
    spec_u32_to_le_bytes(encode_utf8(description).len() as u32) + encode_utf8(description)
}

/// The stored form of an item.
pub open spec fn item_bytes(item: ItemView) -> Seq<u8> {
    flag_bytes(item.is_active) + (spec_u32_to_le_bytes(item.bid_count as u32) + (identity_bytes(
        item.owner,
    ) + (new_owner_bytes(item.new_owner) + (description_bytes(item.description) + (
    spec_u32_to_le_bytes(item.bids.len() as u32) + bids_bytes(item.bids))))))
}

/// Reads a flag off the front of `s`: the flag and what follows it.
pub open spec fn parse_flag(s: Seq<u8>) -> Option<(bool, Seq<u8>)> {
    if s.len() >= 1 && s[0] <= 1 {
        Some((s[0] == 1, s.skip(1)))
    } else {
        None
    }
}

/// Reads a 32-bit number off the front of `s`.
pub open spec fn parse_u32(s: Seq<u8>) -> Option<(u32, Seq<u8>)> {
    if s.len() >= 4 {
        Some((spec_u32_from_le_bytes(s.take(4)), s.skip(4)))
    } else {
        None
    }
}

/// Reads a 64-bit number off the front of `s`.
pub open spec fn parse_u64(s: Seq<u8>) -> Option<(u64, Seq<u8>)> {
    if s.len() >= 8 {
        Some((spec_u64_from_le_bytes(s.take(8)), s.skip(8)))
    } else {
        None
    }
}

/// Reads an identity off the front of `s`.
pub open spec fn parse_identity(s: Seq<u8>) -> Option<(Seq<u8>, Seq<u8>)> {
    if s.len() >= 1 && s[0] <= MAX_IDENTITY_LEN && s.len() >= 1 + s[0] {
        Some((s.subrange(1, 1 + s[0]), s.skip(1 + s[0])))
    } else {
        None
    }
}

/// Reads the new owner off the front of `s`.
pub open spec fn parse_new_owner(s: Seq<u8>) -> Option<(Option<Seq<u8>>, Seq<u8>)> {
    match parse_flag(s) {
        Some((true, rest)) => match parse_identity(rest) {
            Some((id, rest)) => Some((Some(id), rest)),
            None => None,
        },
        Some((false, rest)) => Some((None, rest)),
        None => None,
    }
}

/// Reads a description off the front of `s`.
pub open spec fn parse_description(s: Seq<u8>) -> Option<(Seq<char>, Seq<u8>)> {
    match parse_u32(s) {
        Some((n, rest)) => if rest.len() >= n && valid_utf8(rest.take(n as int)) {
            Some((decode_utf8(rest.take(n as int)), rest.skip(n as int)))
        } else {
            None
        },
        None => None,
    }
}

/// Reads one bid off the front of `s`.
pub open spec fn parse_bid(s: Seq<u8>) -> Option<(BidView, Seq<u8>)> {
    match parse_identity(s) {
        Some((bidder, rest)) => match parse_u64(rest) {
            Some((amount, rest)) => Some((BidView { bidder, amount }, rest)),
            None => None,
        },
        None => None,
    }
}

/// Reads `n` bids off the front of `s`.
pub open spec fn parse_bids(s: Seq<u8>, n: nat) -> Option<(Seq<BidView>, Seq<u8>)>
    decreases n,
{
    if n == 0 {
        Some((Seq::empty(), s))
    } else {
        match parse_bid(s) {
            Some((bid, rest)) => match parse_bids(rest, (n - 1) as nat) {
                Some((bids, rest)) => Some((seq![bid] + bids, rest)),
                None => None,
            },
            None => None,
        }
    }
}

/// Reads the fields of an item off the front of `s`, whatever they hold.
pub open spec fn parse_fields(s: Seq<u8>) -> Option<(ItemView, Seq<u8>)> {
    match parse_flag(s) {
        Some((is_active, s1)) => match parse_u32(s1) {
            Some((bid_count, s2)) => match parse_identity(s2) {
                Some((owner, s3)) => match parse_new_owner(s3) {
                    Some((new_owner, s4)) => match parse_description(s4) {
                        Some((description, s5)) => match parse_u32(s5) {
                            Some((n, s6)) => match parse_bids(s6, n as nat) {
                                Some((bids, s7)) => Some(
                                    (
                                        ItemView {
                                            description,
                                            is_active,
                                            owner,
                                            new_owner,
                                            bid_count: bid_count as nat,
                                            bids,
                                        },
                                        s7,
                                    ),
                                ),
                                None => None,
                            },
                            None => None,
                        },
                        None => None,
                    },
                    None => None,
                },
                None => None,
            },
            None => None,
        },
        None => None,
    }
}

/// The item that `s` is the stored form of: its fields are read off `s`,
/// nothing is left over, and the item is well formed.
pub open spec fn parse_item(s: Seq<u8>) -> Option<ItemView> {
    match parse_fields(s) {
        Some((item, rest)) => if rest.len() == 0 && item.wf() {
            Some(item)
        } else {
            None
        },
        None => None,
    }
}

proof fn lemma_parse_flag(flag: bool, rest: Seq<u8>)
    ensures
        parse_flag(flag_bytes(flag) + rest) == Some((flag, rest)),
{
    assert((flag_bytes(flag) + rest).skip(1) =~= rest);
}

proof fn lemma_parse_u32(x: u32, rest: Seq<u8>)
    ensures
        parse_u32(spec_u32_to_le_bytes(x) + rest) == Some((x, rest)),
{
    lemma_auto_spec_u32_to_from_le_bytes();
    let s = spec_u32_to_le_bytes(x) + rest;
    assert(s.take(4) =~= spec_u32_to_le_bytes(x));
    assert(s.skip(4) =~= rest);
}

proof fn lemma_parse_u64(x: u64, rest: Seq<u8>)
    ensures
        parse_u64(spec_u64_to_le_bytes(x) + rest) == Some((x, rest)),
{
    lemma_auto_spec_u64_to_from_le_bytes();
    let s = spec_u64_to_le_bytes(x) + rest;
    assert(s.take(8) =~= spec_u64_to_le_bytes(x));
    assert(s.skip(8) =~= rest);
}

proof fn lemma_parse_identity(id: Seq<u8>, rest: Seq<u8>)
    requires
        id.len() <= MAX_IDENTITY_LEN,
    ensures
        parse_identity(identity_bytes(id) + rest) == Some((id, rest)),
{
    let s = identity_bytes(id) + rest;
    assert(s[0] == id.len() as u8);
    assert(s.subrange(1, 1 + s[0]) =~= id);
    assert(s.skip(1 + s[0]) =~= rest);
}

proof fn lemma_parse_new_owner(new_owner: Option<Seq<u8>>, rest: Seq<u8>)
    requires
        new_owner is Some ==> new_owner->Some_0.len() <= MAX_IDENTITY_LEN,
    ensures
        parse_new_owner(new_owner_bytes(new_owner) + rest) == Some((new_owner, rest)),
{
    match new_owner {
        Some(id) => {
            assert(new_owner_bytes(new_owner) + rest =~= flag_bytes(true) + (identity_bytes(id)
                + rest));
            lemma_parse_flag(true, identity_bytes(id) + rest);
            lemma_parse_identity(id, rest);
        },
        None => {
            lemma_parse_flag(false, rest);
        },
    }
}

proof fn lemma_parse_description(description: Seq<char>, rest: Seq<u8>)
    requires
        encode_utf8(description).len() <= u32::MAX,
    ensures
        parse_description(description_bytes(description) + rest) == Some((description, rest)),
{
    let text = encode_utf8(description);
    let n = text.len() as u32;
    assert(description_bytes(description) + rest =~= spec_u32_to_le_bytes(n) + (text + rest));
    lemma_parse_u32(n, text + rest);
    assert((text + rest).take(n as int) =~= text);
    assert((text + rest).skip(n as int) =~= rest);
    encode_utf8_valid_utf8(description);
    encode_utf8_decode_utf8(description);
}

proof fn lemma_parse_bid(bid: BidView, rest: Seq<u8>)
    requires
        bid.bidder.len() <= MAX_IDENTITY_LEN,
    ensures
        parse_bid(bid_bytes(bid) + rest) == Some((bid, rest)),
{
    assert(bid_bytes(bid) + rest =~= identity_bytes(bid.bidder) + (spec_u64_to_le_bytes(bid.amount)
        + rest));
    lemma_parse_identity(bid.bidder, spec_u64_to_le_bytes(bid.amount) + rest);
    lemma_parse_u64(bid.amount, rest);
}

proof fn lemma_parse_bids(bids: Seq<BidView>, rest: Seq<u8>)
    requires
        forall|i: int| 0 <= i < bids.len() ==> (#[trigger] bids[i]).bidder.len() <= MAX_IDENTITY_LEN,
    ensures
        parse_bids(bids_bytes(bids) + rest, bids.len()) == Some((bids, rest)),
    decreases bids.len(),
{
    if bids.len() == 0 {
        assert(bids_bytes(bids) + rest =~= rest);
        assert(bids =~= Seq::empty());
    } else {
        let tail = bids.drop_first();
        assert(bids_bytes(bids) + rest =~= bid_bytes(bids[0]) + (bids_bytes(tail) + rest));
        lemma_parse_bid(bids[0], bids_bytes(tail) + rest);
        assert forall|i: int| 0 <= i < tail.len() implies (#[trigger] tail[i]).bidder.len()
            <= MAX_IDENTITY_LEN by {
            assert(tail[i] == bids[i + 1]);
        }
        lemma_parse_bids(tail, rest);
        assert(seq![bids[0]] + tail =~= bids);
    }
}

/// The stored form of at most [`MAX_BIDDERS`] bids is short.
proof fn lemma_bids_bytes_len(bids: Seq<BidView>)
    requires
        forall|i: int| 0 <= i < bids.len() ==> (#[trigger] bids[i]).bidder.len() <= MAX_IDENTITY_LEN,
    ensures
        bids_bytes(bids).len() <= 38 * bids.len(),
    decreases bids.len(),
{
    lemma_auto_spec_u64_to_from_le_bytes();
    if bids.len() > 0 {
        let tail = bids.drop_first();
        assert forall|i: int| 0 <= i < tail.len() implies (#[trigger] tail[i]).bidder.len()
            <= MAX_IDENTITY_LEN by {
            assert(tail[i] == bids[i + 1]);
        }
        lemma_bids_bytes_len(tail);
        assert(bids[0].bidder.len() <= MAX_IDENTITY_LEN);
    }
}

/// The stored form of a well-formed item fits in one value of the store.
pub proof fn lemma_item_bytes_len(item: ItemView)
    requires
        item.wf(),
    ensures
        item_bytes(item).len() <= MAX_VALUE_SIZE,
{
    lemma_auto_spec_u32_to_from_le_bytes();
    lemma_bids_bytes_len(item.bids);
}

/// Reading the stored form of a well-formed item gives the item back.
pub proof fn lemma_parse_item_bytes(item: ItemView)
    requires
        item.wf(),
    ensures
        parse_item(item_bytes(item)) == Some(item),
{
    let s7 = Seq::<u8>::empty();
    let s6 = bids_bytes(item.bids) + s7;
    let s5 = spec_u32_to_le_bytes(item.bids.len() as u32) + s6;
    let s4 = description_bytes(item.description) + s5;
    let s3 = new_owner_bytes(item.new_owner) + s4;
    let s2 = identity_bytes(item.owner) + s3;
    let s1 = spec_u32_to_le_bytes(item.bid_count as u32) + s2;
    assert(s6 =~= bids_bytes(item.bids));
    assert(item_bytes(item) == flag_bytes(item.is_active) + s1);
    lemma_parse_flag(item.is_active, s1);
    lemma_parse_u32(item.bid_count as u32, s2);
    lemma_parse_identity(item.owner, s3);
    lemma_parse_new_owner(item.new_owner, s4);
    lemma_parse_description(item.description, s5);
    lemma_parse_u32(item.bids.len() as u32, s6);
    lemma_parse_bids(item.bids, s7);
    let parsed = parse_fields(item_bytes(item));
    assert(parsed == Some((item, s7)));
}

/// `String::from_utf8` of std: the text whose UTF-8 form is `bytes`, if
/// `bytes` is valid UTF-8, and nothing otherwise.
#[verifier::external_body]
fn text_from_utf8(bytes: Vec<u8>) -> (text: Option<String>)
    ensures
        text is Some <==> valid_utf8(bytes@),
        text is Some ==> encode_utf8(text->Some_0@) == bytes@,
{
    String::from_utf8(bytes).ok()
}

fn append_bytes(out: &mut Vec<u8>, bytes: &[u8])
    ensures
        final(out)@ == old(out)@ + bytes@,
{
    let ghost before = out@;
    let mut i: usize = 0;
    while i < bytes.len()
        invariant
            i <= bytes@.len(),
            out@ == before + bytes@.take(i as int),
        decreases bytes@.len() - i,
    {
        out.push(bytes[i]);
        assert(before + bytes@.take(i as int + 1) =~= (before + bytes@.take(i as int)).push(
            bytes@[i as int],
        ));
        i += 1;
    }
    assert(bytes@.take(i as int) =~= bytes@);
}

fn append_u32(out: &mut Vec<u8>, x: u32)
    ensures
        final(out)@ == old(out)@ + spec_u32_to_le_bytes(x),
{
    let bytes = u32_to_le_bytes(x);
    append_bytes(out, bytes.as_slice());
}

fn append_u64(out: &mut Vec<u8>, x: u64)
    ensures
        final(out)@ == old(out)@ + spec_u64_to_le_bytes(x),
{
    let bytes = u64_to_le_bytes(x);
    append_bytes(out, bytes.as_slice());
}

fn append_flag(out: &mut Vec<u8>, flag: bool)
    ensures
        final(out)@ == old(out)@ + flag_bytes(flag),
{
    let ghost before = out@;
    out.push(if flag { 1u8 } else { 0u8 });
    assert(out@ =~= before + flag_bytes(flag));
}

fn append_identity(out: &mut Vec<u8>, id: &Identity)
    requires
        id.wf(),
    ensures
        final(out)@ == old(out)@ + identity_bytes(id@),
{
    let ghost before = out@;
    out.push(id.len() as u8);
    append_bytes(out, id.as_bytes().as_slice());
    assert(out@ =~= before + identity_bytes(id@));
}

fn append_new_owner(out: &mut Vec<u8>, new_owner: Option<&Identity>)
    requires
        new_owner is Some ==> new_owner->Some_0.wf(),
    ensures
        final(out)@ == old(out)@ + new_owner_bytes(
            match new_owner {
                Some(id) => Some(id@),
                None => None,
            },
        ),
{
    let ghost before = out@;
    match new_owner {
        Some(id) => {
            append_flag(out, true);
            append_identity(out, id);
            assert(out@ =~= before + (flag_bytes(true) + identity_bytes(id@)));
        },
        None => {
            append_flag(out, false);
        },
    }
}

fn append_description(out: &mut Vec<u8>, description: &String)
    requires
        encode_utf8(description@).len() <= u32::MAX,
    ensures
        final(out)@ == old(out)@ + description_bytes(description@),
{
    let ghost before = out@;
    let text = description.as_str().as_bytes();
    append_u32(out, text.len() as u32);
    append_bytes(out, text);
    assert(out@ =~= before + description_bytes(description@));
}

fn append_bids(out: &mut Vec<u8>, bids: &Bids)
    requires
        bids.wf(),
    ensures
        final(out)@ == old(out)@ + bids_bytes(bids@),
{
    let ghost head = out@;
    let n = bids.len();
    let mut i: usize = 0;
    assert(bids@.skip(0) =~= bids@);
    while i < n
        invariant
            i <= n,
            n == bids@.len(),
            bids.wf(),
            out@ + bids_bytes(bids@.skip(i as int)) == head + bids_bytes(bids@),
        decreases n - i,
    {
        let ghost before = out@;
        let bid = bids.entry(i);
        proof {
            let rest = bids@.skip(i as int);
            assert(rest[0] == bids@[i as int]);
            assert(rest.drop_first() =~= bids@.skip(i as int + 1));
            assert(bids@[i as int].bidder.len() <= MAX_IDENTITY_LEN);
        }
        append_identity(out, &bid.bidder);
        append_u64(out, bid.amount);
        assert(out@ + bids_bytes(bids@.skip(i as int + 1)) =~= before + bids_bytes(
            bids@.skip(i as int),
        ));
        i += 1;
    }
    assert(bids@.skip(n as int) =~= Seq::<BidView>::empty());
    assert(out@ =~= out@ + bids_bytes(bids@.skip(n as int)));
}

/// The stored form of `item`.
pub fn encode_item(item: &Item) -> (bytes: Vec<u8>)
    requires
        item.wf(),
    ensures
        bytes@ == item_bytes(item@),
        bytes@.len() <= MAX_VALUE_SIZE,
{
    let ghost v = item@;
    let mut out: Vec<u8> = Vec::new();
    append_flag(&mut out, item.is_active());
    append_u32(&mut out, item.bid_count());
    append_identity(&mut out, item.owner());
    append_new_owner(&mut out, item.new_owner());
    append_description(&mut out, item.description());
    append_u32(&mut out, item.bids().len() as u32);
    append_bids(&mut out, item.bids());
    proof {
        assert(out@ =~= item_bytes(v));
        lemma_item_bytes_len(v);
    }
    out
}

fn read_flag(bytes: &Vec<u8>, pos: usize) -> (read: Option<(bool, usize)>)
    requires
        pos <= bytes@.len(),
    ensures
        match read {
            Some((flag, next)) => pos <= next <= bytes@.len() && parse_flag(
                bytes@.skip(pos as int),
            ) == Some((flag, bytes@.skip(next as int))),
            None => parse_flag(bytes@.skip(pos as int)) is None,
        },
{
    if pos < bytes.len() && bytes[pos] <= 1 {
        assert(bytes@.skip(pos as int).skip(1) =~= bytes@.skip(pos as int + 1));
        Some((bytes[pos] == 1, pos + 1))
    } else {
        None
    }
}

fn read_u32(bytes: &Vec<u8>, pos: usize) -> (read: Option<(u32, usize)>)
    requires
        pos <= bytes@.len(),
    ensures
        match read {
            Some((x, next)) => pos <= next <= bytes@.len() && parse_u32(bytes@.skip(pos as int))
                == Some((x, bytes@.skip(next as int))),
            None => parse_u32(bytes@.skip(pos as int)) is None,
        },
{
    if bytes.len() - pos >= 4 {
        let x = u32_from_le_bytes(slice_subrange(bytes.as_slice(), pos, pos + 4));
        assert(bytes@.skip(pos as int).take(4) =~= bytes@.subrange(pos as int, pos as int + 4));
        assert(bytes@.skip(pos as int).skip(4) =~= bytes@.skip(pos as int + 4));
        Some((x, pos + 4))
    } else {
        None
    }
}

fn read_u64(bytes: &Vec<u8>, pos: usize) -> (read: Option<(u64, usize)>)
    requires
        pos <= bytes@.len(),
    ensures
        match read {
            Some((x, next)) => pos <= next <= bytes@.len() && parse_u64(bytes@.skip(pos as int))
                == Some((x, bytes@.skip(next as int))),
            None => parse_u64(bytes@.skip(pos as int)) is None,
        },
{
    if bytes.len() - pos >= 8 {
        let x = u64_from_le_bytes(slice_subrange(bytes.as_slice(), pos, pos + 8));
        assert(bytes@.skip(pos as int).take(8) =~= bytes@.subrange(pos as int, pos as int + 8));
        assert(bytes@.skip(pos as int).skip(8) =~= bytes@.skip(pos as int + 8));
        Some((x, pos + 8))
    } else {
        None
    }
}

fn read_identity(bytes: &Vec<u8>, pos: usize) -> (read: Option<(Identity, usize)>)
    requires
        pos <= bytes@.len(),
    ensures
        match read {
            Some((id, next)) => pos <= next <= bytes@.len() && id.wf() && parse_identity(
                bytes@.skip(pos as int),
            ) == Some((id@, bytes@.skip(next as int))),
            None => parse_identity(bytes@.skip(pos as int)) is None,
        },
{
    if pos >= bytes.len() {
        return None;
    }
    let n = bytes[pos] as usize;
    if n > MAX_IDENTITY_LEN || bytes.len() - pos - 1 < n {
        return None;
    }
    let start = pos + 1;
    let raw = slice_to_vec(slice_subrange(bytes.as_slice(), start, start + n));
    proof {
        let tail = bytes@.skip(pos as int);
        assert(tail[0] == bytes@[pos as int]);
        assert(tail.subrange(1, 1 + n) =~= bytes@.subrange(start as int, start + n));
        assert(tail.skip(1 + n) =~= bytes@.skip(start + n));
    }
    match Identity::new(raw) {
        Some(id) => Some((id, start + n)),
        None => None,
    }
}

fn read_new_owner(bytes: &Vec<u8>, pos: usize) -> (read: Option<(Option<Identity>, usize)>)
    requires
        pos <= bytes@.len(),
    ensures
        match read {
            Some((new_owner, next)) => pos <= next <= bytes@.len() && (new_owner is Some
                ==> new_owner->Some_0.wf()) && parse_new_owner(bytes@.skip(pos as int)) == Some(
                (
                    match new_owner {
                        Some(id) => Some(id@),
                        None => None,
                    },
                    bytes@.skip(next as int),
                ),
            ),
            None => parse_new_owner(bytes@.skip(pos as int)) is None,
        },
{
    match read_flag(bytes, pos) {
        Some((true, next)) => match read_identity(bytes, next) {
            Some((id, next)) => Some((Some(id), next)),
            None => None,
        },
        Some((false, next)) => Some((None, next)),
        None => None,
    }
}

fn read_description(bytes: &Vec<u8>, pos: usize) -> (read: Option<(String, usize)>)
    requires
        pos <= bytes@.len(),
    ensures
        match read {
            Some((text, next)) => pos <= next <= bytes@.len() && parse_description(
                bytes@.skip(pos as int),
            ) == Some((text@, bytes@.skip(next as int))),
            None => parse_description(bytes@.skip(pos as int)) is None,
        },
{
    match read_u32(bytes, pos) {
        Some((n, start)) => {
            let n = n as usize;
            if bytes.len() - start < n {
                return None;
            }
            let raw = slice_to_vec(slice_subrange(bytes.as_slice(), start, start + n));
            proof {
                let rest = bytes@.skip(start as int);
                assert(rest.take(n as int) =~= bytes@.subrange(start as int, start + n));
                assert(rest.skip(n as int) =~= bytes@.skip(start + n));
            }
            match text_from_utf8(raw) {
                Some(text) => {
                    proof {
                        encode_utf8_decode_utf8(text@);
                    }
                    Some((text, start + n))
                },
                None => None,
            }
        },
        None => None,
    }
}

fn read_bid(bytes: &Vec<u8>, pos: usize) -> (read: Option<(Bid, usize)>)
    requires
        pos <= bytes@.len(),
    ensures
        match read {
            Some((bid, next)) => pos <= next <= bytes@.len() && parse_bid(bytes@.skip(pos as int))
                == Some((bid@, bytes@.skip(next as int))),
            None => parse_bid(bytes@.skip(pos as int)) is None,
        },
{
    match read_identity(bytes, pos) {
        Some((bidder, next)) => match read_u64(bytes, next) {
            Some((amount, next)) => Some((Bid { bidder, amount }, next)),
            None => None,
        },
        None => None,
    }
}

/// The bids read so far, followed by what reading the rest gives.
spec fn resumed(
    so_far: Seq<BidView>,
    rest: Option<(Seq<BidView>, Seq<u8>)>,
) -> Option<(Seq<BidView>, Seq<u8>)> {
    match rest {
        Some((bids, left)) => Some((so_far + bids, left)),
        None => None,
    }
}

fn read_bids(bytes: &Vec<u8>, pos: usize, n: u32) -> (read: Option<(Vec<Bid>, usize)>)
    requires
        pos <= bytes@.len(),
    ensures
        match read {
            Some((bids, next)) => pos <= next <= bytes@.len() && parse_bids(
                bytes@.skip(pos as int),
                n as nat,
            ) == Some((Seq::new(bids@.len(), |i: int| bids@[i]@), bytes@.skip(next as int))),
            None => parse_bids(bytes@.skip(pos as int), n as nat) is None,
        },
{
    let mut bids: Vec<Bid> = Vec::new();
    let mut at = pos;
    let mut i: u32 = 0;
    assert(Seq::new(bids@.len(), |j: int| bids@[j]@) + Seq::<BidView>::empty() =~= Seq::<
        BidView,
    >::empty());
    while i < n
        invariant
            i <= n,
            pos <= at <= bytes@.len(),
            parse_bids(bytes@.skip(pos as int), n as nat) == resumed(
                Seq::new(bids@.len(), |j: int| bids@[j]@),
                parse_bids(bytes@.skip(at as int), (n - i) as nat),
            ),
        decreases n - i,
    {
        let ghost so_far = Seq::new(bids@.len(), |j: int| bids@[j]@);
        match read_bid(bytes, at) {
            Some((bid, next)) => {
                let ghost one = bid@;
                bids.push(bid);
                proof {
                    let now = Seq::new(bids@.len(), |j: int| bids@[j]@);
                    assert(now =~= so_far.push(one));
                    let rest = parse_bids(bytes@.skip(next as int), (n - i - 1) as nat);
                    match rest {
                        Some((more, left)) => {
                            assert(so_far + (seq![one] + more) =~= now + more);
                        },
                        None => {},
                    }
                }
                at = next;
            },
            None => {
                return None;
            },
        }
        i += 1;
    }
    proof {
        let so_far = Seq::new(bids@.len(), |j: int| bids@[j]@);
        assert(so_far + Seq::<BidView>::empty() =~= so_far);
    }
    Some((bids, at))
}

/// The item that `bytes` is the stored form of, if it is one.
pub fn decode_item(bytes: &Vec<u8>) -> (item: Option<Item>)
    ensures
        match item {
            Some(item) => item.wf() && parse_item(bytes@) == Some(item@),
            None => parse_item(bytes@) is None,
        },
{
    assert(bytes@.skip(0) =~= bytes@);
    let (is_active, p1) = match read_flag(bytes, 0) {
        Some(read) => read,
        None => {
            return None;
        },
    };
    let (bid_count, p2) = match read_u32(bytes, p1) {
        Some(read) => read,
        None => {
            return None;
        },
    };
    let (owner, p3) = match read_identity(bytes, p2) {
        Some(read) => read,
        None => {
            return None;
        },
    };
    let (new_owner, p4) = match read_new_owner(bytes, p3) {
        Some(read) => read,
        None => {
            return None;
        },
    };
    let (description, p5) = match read_description(bytes, p4) {
        Some(read) => read,
        None => {
            return None;
        },
    };
    let (n, p6) = match read_u32(bytes, p5) {
        Some(read) => read,
        None => {
            return None;
        },
    };
    let (entries, p7) = match read_bids(bytes, p6, n) {
        Some(read) => read,
        None => {
            return None;
        },
    };
    if p7 != bytes.len() {
        return None;
    }
    let bids = match Bids::from_entries(entries) {
        Some(bids) => bids,
        None => {
            return None;
        },
    };
    Item::from_parts(description, is_active, owner, new_owner, bid_count, bids)
}

} // verus!
