//! Reading-order sorting for window-switching UIs.
//!
//! Given a snapshot of positioned window rectangles ("clients"), this crate
//! computes the deterministic left-to-right, top-to-bottom order in which a
//! user would expect to cycle through them.  Clients are first partitioned
//! into buckets by monitor and/or workspace key, and each bucket is then
//! ordered one visual row at a time, tolerating rows of unequal height.

pub mod client;
pub mod partition;
pub mod rows;
pub mod sorting;
pub mod laws;
