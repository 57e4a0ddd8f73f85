//! A persistent merge-store for the results of crawling a package-index
//! changelog: which crates exist, which versions they have, and daily
//! aggregate run statistics.  The store is backed by an embedded ordered
//! key-value engine; every record type has a verified binary codec and a
//! verified, idempotent merge function, so that replaying events is always
//! safe.
pub mod error;
pub mod strutil;
pub mod model;
pub mod codec;
pub mod persistence;
pub mod tui;
pub mod search;
