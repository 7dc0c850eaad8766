//! The key-value store that the sync service keeps its lists in.
//!
//! The service asks three things of a store: the value under a key, an
//! unconditional overwrite of the value under a key, and an atomic increment
//! of a counter. `MemoryStore` provides them in memory; a service in front of
//! another store performs the same three operations there and hands their
//! outcomes to the functions of `sync`.

use vstd::hash_map::StringHashMap;
use vstd::prelude::*;
use vstd::string::StringExecFns;

verus! {

/// A failure of the store. It is carried to the caller and never looked
/// into.
#[derive(Debug, Clone, PartialEq, Eq)]
pub struct StoreError {
    pub message: String,
}

/// What a store holds, as a mathematical value: the value under each key,
/// and the count of each counter.
pub struct StoreState {
    pub entries: Map<Seq<char>, Seq<char>>,
    pub counters: Map<Seq<char>, int>,
}

/// The count of a counter, which is 0 until it is first incremented.
pub open spec fn count_of(counters: Map<Seq<char>, int>, key: Seq<char>) -> int {
    if counters.contains_key(key) {
        counters[key]
    } else {
        0
    }
}

/// A store in memory.
pub struct MemoryStore {
    entries: StringHashMap<String>,
    counters: StringHashMap<i64>,
}

impl View for MemoryStore {
    type V = StoreState;

    closed spec fn view(&self) -> StoreState {
        StoreState {
            entries: self.entries@.map_values(|value: String| value@),
            counters: self.counters@.map_values(|count: i64| count as int),
        }
    }
}

impl StoreError {
    /// A failure with the given description.
    pub fn new(message: String) -> (error: StoreError)
        ensures
            error.message == message,
    {
        StoreError { message }
    }
}

impl MemoryStore {
    /// A store that holds nothing.
    pub fn new() -> (store: MemoryStore)
        ensures
            store@.entries == Map::<Seq<char>, Seq<char>>::empty(),
            store@.counters == Map::<Seq<char>, int>::empty(),
    {
        let store = MemoryStore { entries: StringHashMap::new(), counters: StringHashMap::new() };
        assert(store@.entries =~= Map::<Seq<char>, Seq<char>>::empty());
        assert(store@.counters =~= Map::<Seq<char>, int>::empty());
        store
    }

    /// The value under `key`, if there is one.
    pub fn get(&self, key: &str) -> (found: Option<String>)
        ensures
            match found {
                Some(value) => self@.entries.contains_key(key@) && value@ == self@.entries[key@],
                None => !self@.entries.contains_key(key@),
            },
    {
        match self.entries.get(key) {
            Some(value) => Some(value.clone()),
            None => None,
        }
    }

    /// Puts `value` under `key`, in place of what was there.
    pub fn set(&mut self, key: &str, value: &str) -> (written: Result<(), StoreError>)
        ensures
            written is Ok,
            final(self)@.entries == old(self)@.entries.insert(key@, value@),
            final(self)@.counters == old(self)@.counters,
    {
        self.entries.insert(String::from_str(key), String::from_str(value));
        assert(self@.entries =~= old(self)@.entries.insert(key@, value@));
        Ok(())
    }

    /// Adds one to the counter under `key` and gives its new count. A
    /// counter that was never incremented counts from 0. Fails, and changes
    /// nothing, where the new count would not fit in 64 bits.
    pub fn increment(&mut self, key: &str) -> (counted: Result<i64, StoreError>)
        ensures
            final(self)@.entries == old(self)@.entries,
            match counted {
                Ok(count) => count == count_of(old(self)@.counters, key@) + 1
                    && final(self)@.counters == old(self)@.counters.insert(key@, count as int),
                Err(_) => count_of(old(self)@.counters, key@) == i64::MAX
                    && final(self)@.counters == old(self)@.counters,
            },
    {
        let current: i64 = match self.counters.get(key) {
            Some(count) => *count,
            None => 0,
        };
        if current == i64::MAX {
            return Err(StoreError::new(String::from_str("counter overflow")));
        }
        let next: i64 = current + 1;
        self.counters.insert(String::from_str(key), next);
        assert(self@.counters =~= old(self)@.counters.insert(key@, next as int));
        Ok(next)
    }
}

} // verus!
