use ic_stable_structures::memory_manager::{MemoryId, MemoryManager, VirtualMemory};
use ic_stable_structures::storable::Blob;
use ic_stable_structures::{DefaultMemoryImpl, StableBTreeMap};
use vstd::prelude::*;

verus! {

/// Upper limit, in bytes, of one stored value.
pub const MAX_VALUE_SIZE: usize = 5000;

/// The durable ordered map from item id to an encoded record: a
/// `StableBTreeMap` of `ic_stable_structures` whose values are byte blobs of
/// at most [`MAX_VALUE_SIZE`] bytes, living in a virtual memory of the
/// default memory implementation.
///
/// Verus sees nothing inside; everything known about a value of this type is
/// said by the functions of this file over [`stored_bytes`].
#[verifier::external_body]
pub struct RecordMap {
    map: StableBTreeMap<u64, Blob<5000>, VirtualMemory<DefaultMemoryImpl>>,
}

/// What a [`RecordMap`] holds: for each key in it, the bytes stored there.
pub uninterp spec fn stored_bytes(records: RecordMap) -> Map<u64, Seq<u8>>;

/// `MemoryManager::init` on the default memory, `MemoryManager::get` for the
/// virtual memory `memory_id`, and `StableBTreeMap::init` on that memory.
///
/// `init` loads the map that the memory already holds, if it holds one, so
/// nothing is claimed about the entries of the result. The id 255 is
/// reserved by the memory manager. The outside code aborts on a memory whose
/// header is damaged.
#[verifier::external_body]
pub(crate) fn open_record_map(memory_id: u8) -> (records: RecordMap)
    requires
        memory_id != 255,
{
    let manager = MemoryManager::init(DefaultMemoryImpl::default());
    RecordMap { map: StableBTreeMap::init(manager.get(MemoryId::new(memory_id))) }
}

/// `StableBTreeMap::get`: the bytes stored under `key`, if the key is present.
#[verifier::external_body]
pub(crate) fn record_map_get(records: &RecordMap, key: u64) -> (found: Option<Vec<u8>>)
    ensures
        found is Some <==> stored_bytes(*records).contains_key(key),
        found is Some ==> found->Some_0@ == stored_bytes(*records)[key],
{
    records.map.get(&key).map(|blob| blob.as_slice().to_vec())
}

/// `StableBTreeMap::insert`: stores `value` under `key`, replacing what was
/// there, and returns the bytes that were there before, if any. Every other
/// key keeps its value. The outside code aborts when the memory cannot grow.
#[verifier::external_body]
pub(crate) fn record_map_insert(records: &mut RecordMap, key: u64, value: &Vec<u8>) -> (previous:
    Option<Vec<u8>>)
    requires
        value@.len() <= MAX_VALUE_SIZE,
    ensures
        stored_bytes(*final(records)) == stored_bytes(*old(records)).insert(key, value@),
        previous is Some <==> stored_bytes(*old(records)).contains_key(key),
        previous is Some ==> previous->Some_0@ == stored_bytes(*old(records))[key],
{
    let blob = Blob::<5000>::try_from(value.as_slice()).unwrap();
    records.map.insert(key, blob).map(|old_blob| old_blob.as_slice().to_vec())
}

/// `StableBTreeMap::len`: the number of keys in the map.
#[verifier::external_body]
pub(crate) fn record_map_len(records: &RecordMap) -> (n: u64)
    ensures
        n == stored_bytes(*records).dom().len(),
{
    records.map.len()
}

/// `StableBTreeMap::iter`, collected: every entry of the map exactly once,
/// in ascending order of the keys.
#[verifier::external_body]
pub(crate) fn record_map_entries(records: &RecordMap) -> (entries: Vec<(u64, Vec<u8>)>)
    ensures
        forall|i: int|
            0 <= i < entries@.len() ==> {
                &&& stored_bytes(*records).contains_key(#[trigger] entries@[i].0)
                &&& stored_bytes(*records)[entries@[i].0] == entries@[i].1@
            },
        forall|key: u64| #[trigger]
            stored_bytes(*records).contains_key(key) ==> exists|i: int|
                0 <= i < entries@.len() && entries@[i].0 == key,
        forall|i: int, j: int|
            0 <= i < j < entries@.len() ==> (#[trigger] entries@[i]).0 < (#[trigger] entries@[j]).0,
{
    records.map.iter().map(|(key, blob)| (key, blob.as_slice().to_vec())).collect()
}

} // verus!
