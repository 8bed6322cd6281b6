//! Faceted search: the tree of value ranges of a numeric field, scans over
//! one level of it, and the descent through its levels.

pub mod facet_iter;
pub mod facet_range;
pub mod store;
