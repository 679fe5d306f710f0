//! A caching reverse proxy core: canonical request and response encodings,
//! a per-key lockable cache with time-to-live eviction, header rewriting
//! rules, and the decisions of the request pipeline.

pub mod bytes;
pub mod codec;
pub mod errors;
pub mod record;
pub mod cache;
pub mod config;
pub mod policy;
pub mod pipeline;
