//! Removal of old favourite marks on a remote social-networking account,
//! driven by a local cache of previously seen favourite timestamps.
//!
//! The verified core holds the cache model (`index`), its on-disk format
//! (`codec`), the retention arithmetic (`timestamp`), the paginated-fetch
//! accumulator (`fetch`) and the deletion state machine (`reconcile`).
//! File and network traffic stay outside, handing plain values in and out.
pub mod clock;
pub mod codec;
pub mod fetch;
pub mod index;
pub mod reconcile;
pub mod timestamp;
