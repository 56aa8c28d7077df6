use auction_project_backend::identity::Identity;
use auction_project_backend::item::{description_fits, Item, MAX_DESCRIPTION_BYTES};
use auction_project_backend::record::{decode_item, encode_item};
use auction_project_backend::stable::MAX_VALUE_SIZE;

fn id(bytes: &[u8]) -> Identity {
    Identity::new(bytes.to_vec()).unwrap()
}

fn plain_item() -> Item {
    Item::new(String::from("desc"), true, id(&[1, 2, 3]))
}

fn plain_bytes() -> Vec<u8> {
    vec![
        1, 0, 0, 0, 0, 3, 1, 2, 3, 0, 4, 0, 0, 0, 100, 101, 115, 99, 0, 0, 0, 0,
    ]
}

#[test]
fn stored_form_of_an_item_without_bids() {
    assert_eq!(encode_item(&plain_item()), plain_bytes());
}

#[test]
fn stored_form_of_a_closed_item_with_bids() {
    let mut item = Item::new(String::from("é"), true, id(&[7]));
    item.record_bid(id(&[9]), 258);
    item.record_bid(id(&[4, 4]), 259);
    item.close();
    let expected: Vec<u8> = vec![
        0, // inactive
        2, 0, 0, 0, // two bids taken
        1, 7, // owner
        1, 2, 4, 4, // new owner
        2, 0, 0, 0, 0xc3, 0xa9, // description
        2, 0, 0, 0, // two bidders
        1, 9, 2, 1, 0, 0, 0, 0, 0, 0, // first bidder and 258
        2, 4, 4, 3, 1, 0, 0, 0, 0, 0, 0, // second bidder and 259
    ];
    assert_eq!(encode_item(&item), expected);
}

#[test]
fn reading_the_stored_form_gives_the_item_back() {
    let mut item = Item::new(String::from("a lamp, slightly used"), true, id(&[7, 7, 7]));
    item.record_bid(id(&[9]), 10);
    item.record_bid(id(&[1, 2]), 11);
    item.record_bid(id(&[9]), 12);
    let bytes = encode_item(&item);
    assert_eq!(decode_item(&bytes), Some(item.clone()));
    item.close();
    let bytes = encode_item(&item);
    assert_eq!(decode_item(&bytes), Some(item));
}

#[test]
fn reading_plain_bytes_gives_the_plain_item() {
    assert_eq!(decode_item(&plain_bytes()), Some(plain_item()));
}

#[test]
fn bytes_left_over_are_refused() {
    let mut bytes = plain_bytes();
    bytes.push(0);
    assert_eq!(decode_item(&bytes), None);
}

#[test]
fn short_bytes_are_refused() {
    let mut bytes = plain_bytes();
    bytes.pop();
    assert_eq!(decode_item(&bytes), None);
    assert_eq!(decode_item(&Vec::new()), None);
}

#[test]
fn a_flag_other_than_zero_or_one_is_refused() {
    let mut bytes = plain_bytes();
    bytes[0] = 2;
    assert_eq!(decode_item(&bytes), None);
}

#[test]
fn an_identity_longer_than_the_limit_is_refused() {
    let mut bytes = vec![1u8, 0, 0, 0, 0, 30];
    bytes.extend(vec![0u8; 30]);
    bytes.extend(vec![0u8, 0, 0, 0, 0, 0, 0, 0, 0]);
    assert_eq!(decode_item(&bytes), None);
}

#[test]
fn a_description_that_is_not_utf8_is_refused() {
    let mut bytes = plain_bytes();
    bytes[14] = 0xff;
    assert_eq!(decode_item(&bytes), None);
}

#[test]
fn a_description_of_several_bytes_per_char_is_read_back() {
    let text = String::from("zwölf €");
    let item = Item::new(text.clone(), false, id(&[1]));
    let read = decode_item(&encode_item(&item)).unwrap();
    assert_eq!(read.description(), &text);
    assert!(!read.is_active());
}

#[test]
fn bids_out_of_order_are_refused() {
    let bytes: Vec<u8> = vec![
        1, 2, 0, 0, 0, 1, 7, 0, 0, 0, 0, 0, 2, 0, 0, 0, // two bidders follow
        1, 9, 1, 0, 0, 0, 0, 0, 0, 0, // bidder [9]
        1, 4, 2, 0, 0, 0, 0, 0, 0, 0, // bidder [4], which belongs before [9]
    ];
    assert_eq!(decode_item(&bytes), None);
    let sorted: Vec<u8> = vec![
        1, 2, 0, 0, 0, 1, 7, 0, 0, 0, 0, 0, 2, 0, 0, 0, 1, 4, 2, 0, 0, 0, 0, 0, 0, 0, 1, 9, 1, 0,
        0, 0, 0, 0, 0, 0,
    ];
    let item = decode_item(&sorted).unwrap();
    assert_eq!(item.bid_count(), 2);
    assert_eq!(item.bids().len(), 2);
    assert_eq!(item.bids().top().unwrap().bidder, id(&[4]));
}

#[test]
fn an_active_item_with_a_new_owner_is_refused() {
    let bytes: Vec<u8> = vec![
        1, 1, 0, 0, 0, 1, 7, 1, 1, 9, 0, 0, 0, 0, 1, 0, 0, 0, 1, 9, 5, 0, 0, 0, 0, 0, 0, 0,
    ];
    assert_eq!(decode_item(&bytes), None);
    let mut closed = bytes.clone();
    closed[0] = 0;
    let item = decode_item(&closed).unwrap();
    assert_eq!(item.new_owner(), Some(&id(&[9])));
}

#[test]
fn a_new_owner_without_any_bid_is_refused() {
    let bytes: Vec<u8> = vec![0, 0, 0, 0, 0, 1, 7, 1, 1, 9, 0, 0, 0, 0, 0, 0, 0, 0];
    assert_eq!(decode_item(&bytes), None);
}

#[test]
fn the_largest_item_fits_in_one_value() {
    let text: String = std::iter::repeat('x').take(MAX_DESCRIPTION_BYTES).collect();
    assert!(description_fits(&text));
    let mut item = Item::new(text, true, id(&[1u8; 29]));
    for i in 0..100u8 {
        let mut who = vec![2u8; 29];
        who[0] = i;
        item.record_bid(id(&who), u64::from(i));
    }
    item.close();
    let bytes = encode_item(&item);
    assert_eq!(bytes.len(), 1 + 4 + 30 + 31 + 4 + 1024 + 4 + 100 * 38);
    assert!(bytes.len() <= MAX_VALUE_SIZE);
    assert_eq!(decode_item(&bytes), Some(item));
}

#[test]
fn a_description_over_the_limit_does_not_fit() {
    let text: String = std::iter::repeat('x').take(MAX_DESCRIPTION_BYTES + 1).collect();
    assert!(!description_fits(&text));
    let two_bytes_each: String = std::iter::repeat('é').take(513).collect();
    assert!(!description_fits(&two_bytes_each));
    let just: String = std::iter::repeat('é').take(512).collect();
    assert!(description_fits(&just));
}
