//! Key/value containers built from persistent sorted chains: an ordered map,
//! a hash map whose buckets are ordered maps, and two hash-ordered sets.
//! Every change builds new nodes up to the change point and shares the
//! unchanged suffix, so a reader holding an earlier head keeps a consistent
//! chain; a writer publishes a new head with one compare-and-swap. The
//! `protocol` module reads the request and reply lines of the key/value
//! service built on these containers.
pub mod key;
pub mod map;
pub mod hashmap;
pub mod list;
pub mod linked_list;
pub mod protocol;
