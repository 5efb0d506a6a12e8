//! Font resolution and subset caching engine.
//!
//! Given a font identity and a set of Unicode code points, the engine selects
//! a concrete font file able to cover the requested characters (walking the
//! declared fallback chain when needed), derives a canonical cache key for the
//! request, and decides when a cached artifact can be reused, when one must be
//! generated, and when stale entries are reclaimed.

pub mod cache;
pub mod config;
pub mod error;
pub mod font;
pub mod handlers;
pub mod janitor;
pub mod service;
pub mod utils;
