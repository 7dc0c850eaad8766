//! Line-hash lists for comparing text files over a network.
//!
//! A text is fingerprinted line by line, the ordered list of fingerprints is
//! stored on a server under a user's identity, and fetched again later; two
//! lists are compared line by line without the texts themselves.
//!
//! - `hashlist`: fingerprints, lists of them, and the canonical string that a
//!   list is stored and exchanged as;
//! - `decimal` and `text`: the decimal literals and the splitting and joining
//!   that the canonical string is made of;
//! - `diff`: the difference of two lists as segments of kept, added and
//!   removed lines;
//! - `store` and `sync`: the key-value store and the service that pushes and
//!   pulls lists through it;
//! - `schema`: the service's requests over signed integers;
//! - `client`: the requests and responses of a client of the service.

pub mod client;
pub mod decimal;
pub mod diff;
pub mod hashlist;
pub mod schema;
pub mod store;
pub mod sync;
pub mod text;
