//! Core logic of a package-catalog browser: resolving architecture filters,
//! building version matrices, grouping dependency records, and layering
//! shared-library break graphs. All transformations are pure functions over
//! already-fetched rows; the surrounding data store and presentation layers
//! stay outside this crate.

pub mod archfilter;
pub mod breaks;
pub mod deps;
pub mod listing;
pub mod matrix;
pub mod model;
pub mod query;
pub mod revdep;
pub mod srcurl;
pub mod strutil;
pub mod textfmt;
pub mod version;
