//! The requests that the service answers, over signed 32-bit integers as its
//! callers send them: fetching a list, storing a list, and the difference of
//! two lists. Every fingerprint crosses this boundary through the same pair
//! of conversions.

use crate::diff::{diff, diff_of, segment_views, Diff};
use crate::hashlist::{self, signed_of, unsigned_of, HashList};
use crate::store::MemoryStore;
use crate::sync::{pull, pulled, push, pushed, valid_identity, SyncError};
use vstd::prelude::*;

verus! {

/// What the requests work on: the store that the lists are kept in.
pub struct Context {
    pub db: MemoryStore,
}

/// The requests that read.
pub struct Query;

/// The requests that write.
pub struct Mutation;

/// The fingerprints whose signed readings are given.
pub open spec fn from_signed_values(values: Seq<i32>) -> Seq<hashlist::Hash> {
    values.map_values(|value: i32| hashlist::Hash(unsigned_of(value)))
}

/// The signed readings of the fingerprints.
pub open spec fn to_signed_values(hashes: Seq<hashlist::Hash>) -> Seq<i32> {
    hashes.map_values(|hash: hashlist::Hash| signed_of(hash.0))
}

/// Reading fingerprints as signed and the readings as fingerprints again
/// changes nothing, and neither does the other way round.
pub proof fn lemma_signed_values_round_trip(hashes: Seq<hashlist::Hash>, values: Seq<i32>)
    ensures
        from_signed_values(to_signed_values(hashes)) == hashes,
        to_signed_values(from_signed_values(values)) == values,
{
    assert forall|i: int| 0 <= i < hashes.len() implies from_signed_values(
        to_signed_values(hashes),
    )[i] == hashes[i] by {
        hashlist::lemma_signed_round_trip(hashes[i].0, 0);
    }
    assert forall|i: int| 0 <= i < values.len() implies to_signed_values(
        from_signed_values(values),
    )[i] == values[i] by {
        hashlist::lemma_signed_round_trip(0, values[i]);
    }
    assert(from_signed_values(to_signed_values(hashes)) =~= hashes);
    assert(to_signed_values(from_signed_values(values)) =~= values);
}

impl Context {
    /// A context over the given store.
    pub fn new(db: MemoryStore) -> (context: Context)
        ensures
            context.db == db,
    {
        Context { db }
    }
}

impl Query {
    /// The list last stored under `username`, as signed integers.
    pub fn get_hashlist(context: &Context, username: &str) -> (outcome: Result<Vec<i32>, SyncError>)
        ensures
            match outcome {
                Ok(values) => pulled(context.db@.entries, username@) matches Ok(hashes)
                    && values@ == to_signed_values(hashes),
                Err(e) => pulled(context.db@.entries, username@) == Err::<
                    Seq<hashlist::Hash>,
                    SyncError,
                >(e),
            },
    {
        match pull(&context.db, username) {
            Ok(list) => Ok(list.to_signed()),
            Err(e) => Err(e),
        }
    }

    /// The difference of two lists that are given as signed integers.
    pub fn diff_with_hashes(first: &Vec<i32>, second: &Vec<i32>) -> (segments: Vec<Diff>)
        ensures
            segment_views(segments@) == diff_of(
                from_signed_values(first@),
                from_signed_values(second@),
            ),
    {
        let a = HashList::from_signed(first);
        let b = HashList::from_signed(second);
        diff(&a, &b)
    }
}

impl Mutation {
    /// Stores the list, given as signed integers, under `username`, in
    /// place of any list stored there before, and answers with `username`.
    pub fn commit_hashlist(context: &mut Context, username: &str, hashlist: &Vec<i32>) -> (outcome:
        Result<String, SyncError>)
        ensures
            final(context).db@.counters == old(context).db@.counters,
            match outcome {
                Ok(echo) => {
                    &&& valid_identity(username@)
                    &&& echo@ == username@
                    &&& final(context).db@.entries == pushed(
                        old(context).db@.entries,
                        username@,
                        from_signed_values(hashlist@),
                    )
                },
                Err(e) => {
                    &&& !valid_identity(username@)
                    &&& e == SyncError::InvalidIdentity
                    &&& final(context).db@.entries == old(context).db@.entries
                },
            },
    {
        let list = HashList::from_signed(hashlist);
        push(&mut context.db, username, &list)
    }
}

} // verus!
