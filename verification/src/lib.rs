//! A small persistent recipe store: records are kept in a stable, page-backed
//! B-tree map keyed by a monotonically increasing identifier, with a fixed
//! upper bound on each record's encoded size.

pub mod backing;
pub mod codec;
pub mod model;
pub mod record;
pub mod store;
