//! The sync service: storing the latest hash list of an identity, and
//! fetching it again.
//!
//! A push writes the canonical string of a list under the identity, in place
//! of whatever was there; nothing is merged or appended, and the last writer
//! wins. A pull reads the value under the identity and decodes it.
//!
//! Each operation is split at the store: one function says what to ask of the
//! store, another what the store's answer means. A service in front of any
//! store calls the first, performs the operation, and hands the outcome to
//! the second. `push`, `pull` and `create` do so against a `MemoryStore`.

use crate::decimal::{decimal_digits, lemma_decimal_digits, render_decimal};
use crate::hashlist::{
    self, canonical_string, decoded, lemma_canonical_round_trip, well_formed, HashList,
};
use crate::store::{count_of, MemoryStore, StoreError};
use vstd::prelude::*;
use vstd::string::StringExecFns;

verus! {

/// Why a push or a pull failed.
#[derive(Debug, Clone, PartialEq, Eq)]
pub enum SyncError {
    /// Nothing was ever pushed under the identity.
    NotFound,
    /// The value under the identity is no canonical string. The service only
    /// ever writes canonical strings, so this points to a defect.
    CorruptStoredData,
    /// The store failed.
    StoreUnavailable(StoreError),
    /// The identity is not one the service accepts.
    InvalidIdentity,
}

/// A write to ask of the store: `value` is to stand under `key`.
#[derive(Debug, Clone, PartialEq, Eq)]
pub struct StoreWrite {
    pub key: String,
    pub value: String,
}

/// The identities that the service accepts: all but the empty string.
pub open spec fn valid_identity(identity: Seq<char>) -> bool {
    identity.len() > 0
}

/// What a pull of `identity` gives from a store that holds `entries`.
pub open spec fn pulled(entries: Map<Seq<char>, Seq<char>>, identity: Seq<char>) -> Result<
    Seq<hashlist::Hash>,
    SyncError,
> {
    if !valid_identity(identity) {
        Err(SyncError::InvalidIdentity)
    } else if !entries.contains_key(identity) {
        Err(SyncError::NotFound)
    } else if !well_formed(entries[identity]) {
        Err(SyncError::CorruptStoredData)
    } else {
        Ok(decoded(entries[identity]))
    }
}

/// What a store holds after a push of `hashes` under `identity`.
pub open spec fn pushed(
    entries: Map<Seq<char>, Seq<char>>,
    identity: Seq<char>,
    hashes: Seq<hashlist::Hash>,
) -> Map<Seq<char>, Seq<char>> {
    entries.insert(identity, canonical_string(hashes))
}

/// The identity that a counter's new count mints: the count before the
/// increment, as a decimal literal. Counts that no counter started at 0 can
/// reach, or whose identity would not fit in 32 bits, mint nothing.
pub open spec fn minted(count: int) -> Option<Seq<char>> {
    if 1 <= count <= u32::MAX + 1 {
        Some(decimal_digits((count - 1) as nat))
    } else {
        None
    }
}

/// After a push of a list that is not empty, a pull of the same identity
/// gives that list, whatever the store held before.
///
/// The empty list is left out: its canonical string is empty, and an empty
/// value is no canonical string of any list.
pub proof fn lemma_pull_after_push(
    entries: Map<Seq<char>, Seq<char>>,
    identity: Seq<char>,
    hashes: Seq<hashlist::Hash>,
)
    requires
        valid_identity(identity),
        hashes.len() > 0,
    ensures
        pulled(pushed(entries, identity, hashes), identity) == Ok::<
            Seq<hashlist::Hash>,
            SyncError,
        >(hashes),
{
    lemma_canonical_round_trip(hashes);
}

/// After two pushes under one identity, a pull gives the second list: the
/// first is gone, and nothing of it is merged into the second.
pub proof fn lemma_last_push_wins(
    entries: Map<Seq<char>, Seq<char>>,
    identity: Seq<char>,
    first: Seq<hashlist::Hash>,
    second: Seq<hashlist::Hash>,
)
    requires
        valid_identity(identity),
        second.len() > 0,
    ensures
        pushed(pushed(entries, identity, first), identity, second) == pushed(
            entries,
            identity,
            second,
        ),
        pulled(pushed(pushed(entries, identity, first), identity, second), identity) == Ok::<
            Seq<hashlist::Hash>,
            SyncError,
        >(second),
{
    lemma_canonical_round_trip(second);
    assert(pushed(pushed(entries, identity, first), identity, second) =~= pushed(
        entries,
        identity,
        second,
    ));
}

/// A push under one identity leaves what a pull of any other identity gives
/// unchanged.
pub proof fn lemma_push_leaves_others(
    entries: Map<Seq<char>, Seq<char>>,
    identity: Seq<char>,
    hashes: Seq<hashlist::Hash>,
    other: Seq<char>,
)
    requires
        other != identity,
    ensures
        pulled(pushed(entries, identity, hashes), other) == pulled(entries, other),
{
}

/// Whether the service accepts the identity.
pub fn check_identity(identity: &str) -> (checked: Result<(), SyncError>)
    ensures
        match checked {
            Ok(_) => valid_identity(identity@),
            Err(e) => !valid_identity(identity@) && e == SyncError::InvalidIdentity,
        },
{
    if identity.is_empty() {
        Err(SyncError::InvalidIdentity)
    } else {
        Ok(())
    }
}

/// The write that a push asks of the store: the canonical string of the
/// list, under the identity. An identity that the service does not accept is
/// refused before the store is touched.
pub fn push_request(identity: &str, hashlist: &HashList) -> (request: Result<
    StoreWrite,
    SyncError,
>)
    ensures
        match request {
            Ok(write) => valid_identity(identity@) && write.key@ == identity@ && write.value@
                == canonical_string(hashlist@),
            Err(e) => !valid_identity(identity@) && e == SyncError::InvalidIdentity,
        },
{
    match check_identity(identity) {
        Err(e) => Err(e),
        Ok(_) => Ok(
            StoreWrite { key: String::from_str(identity), value: hashlist.to_delimited_string() },
        ),
    }
}

/// What a push answers once the store has: the identity if the write went
/// through, and the store's failure if not.
pub fn push_outcome(identity: &str, written: Result<(), StoreError>) -> (outcome: Result<
    String,
    SyncError,
>)
    ensures
        match written {
            Ok(_) => outcome is Ok && outcome->Ok_0@ == identity@,
            Err(e) => outcome == Err::<String, SyncError>(SyncError::StoreUnavailable(e)),
        },
{
    match written {
        Ok(_) => Ok(String::from_str(identity)),
        Err(e) => Err(SyncError::StoreUnavailable(e)),
    }
}

/// The key that a pull asks the store for. An identity that the service does
/// not accept is refused before the store is touched.
pub fn pull_request(identity: &str) -> (request: Result<String, SyncError>)
    ensures
        match request {
            Ok(key) => valid_identity(identity@) && key@ == identity@,
            Err(e) => !valid_identity(identity@) && e == SyncError::InvalidIdentity,
        },
{
    match check_identity(identity) {
        Err(e) => Err(e),
        Ok(_) => Ok(String::from_str(identity)),
    }
}

/// What a pull answers once the store has: the list that the value stands
/// for; `NotFound` where the store holds no value; `CorruptStoredData` where
/// the value is no canonical string; the store's failure where it failed.
pub fn pull_outcome(found: Result<Option<String>, StoreError>) -> (outcome: Result<
    HashList,
    SyncError,
>)
    ensures
        match found {
            Err(e) => outcome == Err::<HashList, SyncError>(SyncError::StoreUnavailable(e)),
            Ok(None) => outcome == Err::<HashList, SyncError>(SyncError::NotFound),
            Ok(Some(value)) => if well_formed(value@) {
                outcome is Ok && outcome->Ok_0@ == decoded(value@)
            } else {
                outcome == Err::<HashList, SyncError>(SyncError::CorruptStoredData)
            },
        },
{
    match found {
        Err(e) => Err(SyncError::StoreUnavailable(e)),
        Ok(None) => Err(SyncError::NotFound),
        Ok(Some(value)) => match HashList::from_canonical_string(value.as_str()) {
            Ok(list) => Ok(list),
            Err(_) => Err(SyncError::CorruptStoredData),
        },
    }
}

/// The identity that a push without one is stored under, from the outcome of
/// incrementing the store's counter: the count before the increment, as a
/// decimal literal. A count that mints nothing is reported as corrupt data.
pub fn mint_identity(counted: Result<i64, StoreError>) -> (identity: Result<String, SyncError>)
    ensures
        match counted {
            Err(e) => identity == Err::<String, SyncError>(SyncError::StoreUnavailable(e)),
            Ok(count) => match minted(count as int) {
                Some(text) => identity is Ok && identity->Ok_0@ == text,
                None => identity == Err::<String, SyncError>(SyncError::CorruptStoredData),
            },
        },
{
    match counted {
        Err(e) => Err(SyncError::StoreUnavailable(e)),
        Ok(count) => {
            if count < 1 || count > 0x1_0000_0000 {
                Err(SyncError::CorruptStoredData)
            } else {
                let id: i64 = count - 1;
                Ok(render_decimal(id as u32))
            }
        },
    }
}

/// The key of the counter that identities are minted from.
pub fn counter_key() -> (key: &'static str)
    ensures
        key@ == counter_key_text(),
{
    "hashlist_counter"
}

/// The key of the counter that identities are minted from.
pub closed spec fn counter_key_text() -> Seq<char> {
    "hashlist_counter"@
}

/// Stores the list under the identity, in place of any list stored there
/// before, and answers with the identity.
pub fn push(store: &mut MemoryStore, identity: &str, hashlist: &HashList) -> (outcome: Result<
    String,
    SyncError,
>)
    ensures
        final(store)@.counters == old(store)@.counters,
        match outcome {
            Ok(echo) => valid_identity(identity@) && echo@ == identity@ && final(store)@.entries
                == pushed(old(store)@.entries, identity@, hashlist@),
            Err(e) => {
                &&& !valid_identity(identity@)
                &&& e == SyncError::InvalidIdentity
                &&& final(store)@.entries == old(store)@.entries
            },
        },
{
    match push_request(identity, hashlist) {
        Err(e) => Err(e),
        Ok(write) => {
            let written = store.set(write.key.as_str(), write.value.as_str());
            push_outcome(identity, written)
        },
    }
}

/// The list last stored under the identity.
pub fn pull(store: &MemoryStore, identity: &str) -> (outcome: Result<HashList, SyncError>)
    ensures
        match outcome {
            Ok(list) => pulled(store@.entries, identity@) == Ok::<Seq<hashlist::Hash>, SyncError>(
                list@,
            ),
            Err(e) => pulled(store@.entries, identity@) == Err::<Seq<hashlist::Hash>, SyncError>(
                e,
            ),
        },
{
    match pull_request(identity) {
        Err(e) => Err(e),
        Ok(key) => pull_outcome(Ok(store.get(key.as_str()))),
    }
}

/// Stores the list under an identity minted from the store's counter, and
/// answers with that identity. The counter is incremented exactly once, and
/// nothing is stored where no identity could be minted.
pub fn create(store: &mut MemoryStore, hashlist: &HashList) -> (outcome: Result<String, SyncError>)
    ensures
        ({
            let before = old(store)@;
            let after = final(store)@;
            let count = count_of(before.counters, counter_key_text()) + 1;
            if count > i64::MAX {
                &&& outcome matches Err(SyncError::StoreUnavailable(_))
                &&& after == before
            } else {
                &&& after.counters == before.counters.insert(counter_key_text(), count)
                &&& match minted(count) {
                    Some(identity) => {
                        &&& outcome is Ok
                        &&& outcome->Ok_0@ == identity
                        &&& after.entries == pushed(before.entries, identity, hashlist@)
                    },
                    None => {
                        &&& outcome == Err::<String, SyncError>(SyncError::CorruptStoredData)
                        &&& after.entries == before.entries
                    },
                }
            }
        }),
{
    let counted = store.increment(counter_key());
    match mint_identity(counted) {
        Err(e) => Err(e),
        Ok(identity) => {
            proof {
                lemma_decimal_digits(count_of(old(store)@.counters, counter_key_text()) as nat);
            }
            push(store, identity.as_str(), hashlist)
        },
    }
}

} // verus!
