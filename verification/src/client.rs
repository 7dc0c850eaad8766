//! What a client of the sync service sends and what it makes of the answer.
//!
//! On the wire a fingerprint is a signed integer: its 32 bits read as two's
//! complement, widened to 64 bits. The transport itself is not part of this
//! library; these functions shape the variables of a request and read the
//! data and errors of a response.

use crate::hashlist::{self, lemma_signed_round_trip, signed_of, unsigned_of, HashList};
use vstd::prelude::*;
use vstd::string::StringExecFns;

verus! {

/// Why a request of the client failed.
#[derive(Debug, Clone, PartialEq, Eq)]
pub enum DhdClientError {
    /// The address of the server is no URL; the text says why.
    UrlError(String),
    /// The request could not be sent or the response not be read; the text
    /// says why.
    RequestError(String),
    /// The server answered with errors; the text is the first one's message.
    QueryError(String),
    /// The server answered with neither data nor an error.
    UnknownError,
}

/// The request that stores a hash list.
pub struct HashlistMutation;

/// The request that fetches a hash list.
pub struct HashlistQuery;

/// The variables of the request that stores a hash list.
#[derive(Debug, Clone, PartialEq, Eq)]
pub struct MutationVariables {
    pub username: String,
    pub hashes: Vec<i64>,
}

/// The variables of the request that fetches a hash list.
#[derive(Debug, Clone, PartialEq, Eq)]
pub struct QueryVariables {
    pub username: String,
}

/// A fingerprint as it goes over the wire.
pub open spec fn wire_of(hash: hashlist::Hash) -> i64 {
    signed_of(hash.0) as i64
}

/// The fingerprint that a value from the wire stands for: its low 32 bits.
pub open spec fn hash_of_wire(value: i64) -> hashlist::Hash {
    hashlist::Hash(value as u32)
}

/// The failure that a response without data stands for.
pub open spec fn failure_of(errors: Option<Vec<String>>) -> DhdClientError {
    match errors {
        Some(messages) => if messages@.len() > 0 {
            DhdClientError::QueryError(messages@[0])
        } else {
            DhdClientError::UnknownError
        },
        None => DhdClientError::UnknownError,
    }
}

/// A fingerprint that went over the wire comes back as it was, and a value
/// from the wire that fits in 32 bits stands for the fingerprint with that
/// signed reading.
pub proof fn lemma_wire_round_trip(hash: hashlist::Hash, value: i32)
    ensures
        hash_of_wire(wire_of(hash)) == hash,
        hash_of_wire(value as i64) == hashlist::Hash(unsigned_of(value)),
{
    let u = hash.0;
    lemma_signed_round_trip(u, value);
    assert(((u as i32) as i64) as u32 == u) by (bit_vector);
    assert((value as i64) as u32 == value as u32) by (bit_vector);
}

/// The fingerprints of a list as they go over the wire.
pub fn to_wire(list: &HashList) -> (values: Vec<i64>)
    ensures
        values@ == list@.map_values(|hash: hashlist::Hash| wire_of(hash)),
{
    let hashes = list.to_sequence();
    let mut values: Vec<i64> = Vec::new();
    let mut i: usize = 0;
    while i < hashes.len()
        invariant
            hashes@ == list@,
            i <= hashes@.len(),
            values@ == list@.take(i as int).map_values(|hash: hashlist::Hash| wire_of(hash)),
        decreases hashes.len() - i,
    {
        values.push(hashes[i].to_signed() as i64);
        proof {
            assert(list@.take(i + 1) == list@.take(i as int).push(list@[i as int]));
            assert(values@ =~= list@.take(i + 1).map_values(
                |hash: hashlist::Hash| wire_of(hash),
            ));
        }
        i = i + 1;
    }
    assert(list@.take(i as int) == list@);
    values
}

/// The list that values from the wire stand for.
pub fn from_wire(values: &Vec<i64>) -> (list: HashList)
    ensures
        list@ == values@.map_values(|value: i64| hash_of_wire(value)),
{
    let mut hashes: Vec<hashlist::Hash> = Vec::new();
    let mut i: usize = 0;
    while i < values.len()
        invariant
            i <= values.len(),
            hashes@ == values@.take(i as int).map_values(|value: i64| hash_of_wire(value)),
        decreases values.len() - i,
    {
        let low: u32 = #[verifier::truncate]
        (values[i] as u32);
        hashes.push(hashlist::Hash(low));
        proof {
            assert(values@.take(i + 1) == values@.take(i as int).push(values@[i as int]));
            assert(hashes@ =~= values@.take(i + 1).map_values(
                |value: i64| hash_of_wire(value),
            ));
        }
        i = i + 1;
    }
    assert(values@.take(i as int) == values@);
    HashList::new(hashes)
}

/// The failure that a response without data stands for: the first error's
/// message where the server gave one, and `UnknownError` where it gave none.
pub fn read_failure(errors: Option<Vec<String>>) -> (failure: DhdClientError)
    ensures
        failure == failure_of(errors),
{
    match errors {
        Some(messages) => {
            if messages.len() == 0 {
                DhdClientError::UnknownError
            } else {
                DhdClientError::QueryError(messages[0].clone())
            }
        },
        None => DhdClientError::UnknownError,
    }
}

impl HashlistMutation {
    /// The variables that store `hashlist` under `username`.
    pub fn build_query(username: &str, hashlist: &HashList) -> (variables: MutationVariables)
        ensures
            variables.username@ == username@,
            variables.hashes@ == hashlist@.map_values(|hash: hashlist::Hash| wire_of(hash)),
    {
        MutationVariables { username: String::from_str(username), hashes: to_wire(hashlist) }
    }

    /// What the response says: the identity that the list was stored under
    /// where there is data, and the failure of the response where not.
    pub fn read_response(data: Option<String>, errors: Option<Vec<String>>) -> (outcome: Result<
        String,
        DhdClientError,
    >)
        ensures
            outcome == match data {
                Some(identity) => Ok::<String, DhdClientError>(identity),
                None => Err::<String, DhdClientError>(failure_of(errors)),
            },
    {
        match data {
            Some(identity) => Ok(identity),
            None => Err(read_failure(errors)),
        }
    }
}

impl HashlistQuery {
    /// The variables that fetch the list of `username`.
    pub fn build_query(username: &str) -> (variables: QueryVariables)
        ensures
            variables.username@ == username@,
    {
        QueryVariables { username: String::from_str(username) }
    }

    /// What the response says: the list that the data stands for where
    /// there is data, and the failure of the response where not.
    pub fn read_response(data: Option<Vec<i64>>, errors: Option<Vec<String>>) -> (outcome: Result<
        HashList,
        DhdClientError,
    >)
        ensures
            match data {
                Some(values) => outcome is Ok && outcome->Ok_0@ == values@.map_values(
                    |value: i64| hash_of_wire(value),
                ),
                None => outcome == Err::<HashList, DhdClientError>(failure_of(errors)),
            },
    {
        match data {
            Some(values) => Ok(from_wire(&values)),
            None => Err(read_failure(errors)),
        }
    }
}

} // verus!
