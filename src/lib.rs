//! Indexed storage of atomic swaps: a table of swap records keyed by id and
//! an index of ids by recipient, kept in step by one create operation, over
//! a byte-ordered store with length-prefixed namespaces and exact, paginated
//! listings.

pub mod order;
pub mod page;
pub mod bytes;
pub mod namespace;
pub mod store;
pub mod error;
pub mod bucket;
pub mod swap;
pub mod state;
pub mod laws;
