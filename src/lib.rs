//! A caching, recursive DNS resolver core: the wire codec, the answer and
//! negative caches, the RTT estimator with RTT-band server selection, the
//! delegation cache and the per-round decisions of the recursive resolver.
use vstd::prelude::*;

pub mod alchemy;
pub mod cache;
pub mod classify;
pub mod config;
pub mod deleg;
pub mod display;
pub mod edns;
pub mod engine;
pub mod features;
pub mod hints;
pub mod infra;
pub mod laws;
pub mod metrics;
pub mod name;
pub mod negative;
pub mod resolver;
pub mod store;
pub mod text;
pub mod types;
pub mod upstream;
pub mod wire;

verus! {

} // verus!
