use vstd::prelude::*;

pub mod client;
pub mod data;
pub mod data_model;
pub mod dedup;
pub mod doc_cache;
pub mod invalidation_laws;
pub mod json;
pub mod normalized;
pub mod optimistic_laws;
pub mod response;
pub mod round_trip;
pub mod selection;
pub mod store;
pub mod store_laws;
pub mod store_spec;
pub mod table;
pub mod types;
pub mod utils;

verus! {
} // verus!
