//! The logic of a set of small network services: asset-price sessions
//! (`prices`), a chat room (`chat`), a proxy that rewrites Boguscoin
//! addresses (`coin`), primality requests (`prime`) and a key-value store
//! (`kv`), with shared text helpers (`text`).
use vstd::prelude::*;

pub mod chat;
pub mod coin;
pub mod kv;
pub mod prices;
pub mod prime;
pub mod text;

verus! {

} // verus!
