use crate::item::{Item, ItemView};
use crate::record::{decode_item, encode_item, lemma_parse_item_bytes, parse_item};
use crate::stable::{
    open_record_map, record_map_entries, record_map_get, record_map_insert, record_map_len,
    stored_bytes, RecordMap,
};
use vstd::prelude::*;
use vstd::seq_lib::seq_to_set_is_finite;

verus! {

/// The virtual memory that holds the items.
pub const ITEMS_MEMORY_ID: u8 = 0;

/// The durable mapping from item id to item. Its view is that mapping.
pub struct ItemStore {
    records: RecordMap,
}

/// Every value of `records` is the stored form of an item.
pub open spec fn all_items(records: Map<u64, Seq<u8>>) -> bool {
    forall|key: u64| #[trigger] records.contains_key(key) ==> parse_item(records[key]) is Some
}

/// The items that `records` holds the stored forms of.
pub open spec fn items_of(records: Map<u64, Seq<u8>>) -> Map<u64, ItemView> {
    Map::new(|key: u64| records.contains_key(key), |key: u64| parse_item(records[key])->Some_0)
}

impl View for ItemStore {
    type V = Map<u64, ItemView>;

    closed spec fn view(&self) -> Map<u64, ItemView> {
        items_of(stored_bytes(self.records))
    }
}

impl ItemStore {
    /// The store is well formed when it holds finitely many records, each
    /// the stored form of an item.
    pub closed spec fn wf(&self) -> bool {
        &&& stored_bytes(self.records).dom().finite()
        &&& all_items(stored_bytes(self.records))
    }

    /// A well-formed store holds finitely many items, each well formed.
    pub proof fn lemma_items_wf(&self)
        requires
            self.wf(),
        ensures
            self@.dom().finite(),
            forall|key: u64| #[trigger] self@.contains_key(key) ==> self@[key].wf(),
    {
        assert(self@.dom() =~= stored_bytes(self.records).dom());
    }

    /// The store over `records`, if every record is the stored form of an
    /// item. The items are then those that the records hold.
    pub fn adopt(records: RecordMap) -> (store: Option<ItemStore>)
        ensures
            store is Some <==> all_items(stored_bytes(records)),
            store is Some ==> store->Some_0.wf() && store->Some_0@ == items_of(
                stored_bytes(records),
            ),
    {
        let entries = record_map_entries(&records);
        let ghost held = stored_bytes(records);
        let mut i: usize = 0;
        while i < entries.len()
            invariant
                i <= entries@.len(),
                held == stored_bytes(records),
                forall|j: int|
                    0 <= j < entries@.len() ==> {
                        &&& held.contains_key(#[trigger] entries@[j].0)
                        &&& held[entries@[j].0] == entries@[j].1@
                    },
                forall|j: int| 0 <= j < i ==> parse_item((#[trigger] entries@[j]).1@) is Some,
            decreases entries@.len() - i,
        {
            if decode_item(&entries[i].1).is_none() {
                proof {
                    assert(held.contains_key(entries@[i as int].0));
                }
                return None;
            }
            i += 1;
        }
        proof {
            let keys = Seq::new(entries@.len(), |j: int| entries@[j].0);
            seq_to_set_is_finite(keys);
            assert forall|key: u64| #[trigger] held.contains_key(key) implies keys.to_set().contains(
                key,
            ) && parse_item(held[key]) is Some by {
                let j = choose|j: int| 0 <= j < entries@.len() && entries@[j].0 == key;
                assert(keys[j] == key);
                assert(held[entries@[j].0] == entries@[j].1@);
            }
            assert(held.dom().subset_of(keys.to_set()));
            vstd::set_lib::lemma_len_subset(held.dom(), keys.to_set());
        }
        Some(ItemStore { records })
    }

    /// Opens the store of the items in the memory [`ITEMS_MEMORY_ID`]. The
    /// store is refused when the memory holds a record that is not the
    /// stored form of an item.
    pub fn open() -> (store: Option<ItemStore>)
        ensures
            store is Some ==> store->Some_0.wf(),
    {
        ItemStore::adopt(open_record_map(ITEMS_MEMORY_ID))
    }

    /// The item stored under `key`, if there is one.
    pub fn get(&self, key: u64) -> (found: Option<Item>)
        requires
            self.wf(),
        ensures
            found is Some <==> self@.contains_key(key),
            found is Some ==> found->Some_0@ == self@[key] && found->Some_0.wf(),
    {
        match record_map_get(&self.records, key) {
            Some(bytes) => decode_item(&bytes),
            None => None,
        }
    }

    /// Stores `item` under `key`, in place of what was there, and returns
    /// the item that was there before, if any.
    pub fn put(&mut self, key: u64, item: Item) -> (previous: Option<Item>)
        requires
            old(self).wf(),
            item.wf(),
        ensures
            final(self).wf(),
            final(self)@ == old(self)@.insert(key, item@),
            previous is Some <==> old(self)@.contains_key(key),
            previous is Some ==> previous->Some_0@ == old(self)@[key] && previous->Some_0.wf(),
    {
        let bytes = encode_item(&item);
        proof {
            lemma_parse_item_bytes(item@);
        }
        let ghost before = stored_bytes(self.records);
        let previous = record_map_insert(&mut self.records, key, &bytes);
        proof {
            let after = stored_bytes(self.records);
            assert(after.dom() =~= before.dom().insert(key));
            assert(items_of(after) =~= items_of(before).insert(key, item@));
        }
        match previous {
            Some(old_bytes) => decode_item(&old_bytes),
            None => None,
        }
    }

    /// The number of items.
    pub fn count(&self) -> (n: u64)
        requires
            self.wf(),
        ensures
            n == self@.dom().len(),
    {
        assert(self@.dom() =~= stored_bytes(self.records).dom());
        record_map_len(&self.records)
    }

    /// Every item with its id, in ascending order of the ids.
    pub fn scan(&self) -> (items: Vec<(u64, Item)>)
        requires
            self.wf(),
        ensures
            forall|i: int|
                0 <= i < items@.len() ==> {
                    &&& self@.contains_key((#[trigger] items@[i]).0)
                    &&& items@[i].1@ == self@[items@[i].0]
                    &&& items@[i].1.wf()
                },
            forall|key: u64| #[trigger]
                self@.contains_key(key) ==> exists|i: int|
                    0 <= i < items@.len() && items@[i].0 == key,
            forall|i: int, j: int|
                0 <= i < j < items@.len() ==> (#[trigger] items@[i]).0 < (#[trigger] items@[j]).0,
    {
        let entries = record_map_entries(&self.records);
        let ghost held = stored_bytes(self.records);
        let mut items: Vec<(u64, Item)> = Vec::new();
        let mut i: usize = 0;
        while i < entries.len()
            invariant
                i <= entries@.len(),
                items@.len() == i,
                held == stored_bytes(self.records),
                all_items(held),
                forall|j: int|
                    0 <= j < entries@.len() ==> {
                        &&& held.contains_key(#[trigger] entries@[j].0)
                        &&& held[entries@[j].0] == entries@[j].1@
                    },
                forall|j: int|
                    0 <= j < i ==> {
                        &&& (#[trigger] items@[j]).0 == entries@[j].0
                        &&& items@[j].1@ == parse_item(entries@[j].1@)->Some_0
                        &&& items@[j].1.wf()
                    },
            decreases entries@.len() - i,
        {
            assert(held.contains_key(entries@[i as int].0));
            let key = entries[i].0;
            match decode_item(&entries[i].1) {
                Some(item) => {
                    items.push((key, item));
                },
                None => {
                    assert(false);
                },
            }
            i += 1;
        }
        proof {
            assert forall|k: int| 0 <= k < items@.len() implies {
                &&& self@.contains_key((#[trigger] items@[k]).0)
                &&& items@[k].1@ == self@[items@[k].0]
                &&& items@[k].1.wf()
            } by {
                assert(held.contains_key(entries@[k].0));
            }
            assert forall|key: u64| #[trigger] self@.contains_key(key) implies exists|k: int|
                0 <= k < items@.len() && items@[k].0 == key by {
                assert(held.contains_key(key));
                let k = choose|k: int| 0 <= k < entries@.len() && entries@[k].0 == key;
                assert(items@[k].0 == key);
            }
            assert forall|a: int, b: int| 0 <= a < b < items@.len() implies (#[trigger] items@[a]).0
                < (#[trigger] items@[b]).0 by {
                assert(entries@[a].0 < entries@[b].0);
            }
        }
        items
    }
}

} // verus!
