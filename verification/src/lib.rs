//! A calendar queue for discrete-event simulation: events are filed into
//! fixed-width buckets by their integer time key and served bucket by bucket.
//!
//! The crate holds the bucket queue in three forms (`Bqueue` for one thread,
//! `ParBqueue` with batch operations, and a form on lock-free buckets), a
//! binary heap as the exact-order baseline, the interface that the event loop
//! needs of a queue, and the event loop itself, which keeps one event of each
//! pair of entities in the queue at a time.
//!
//! Times are whole numbers of ticks. A caller that measures time otherwise
//! chooses the tick and hands over `floor(time / tick)`; with a bucket width
//! of one, the tick is the bucket width. Every queue method takes the queue by
//! exclusive reference, so a queue needs no lock of its own; the work that is
//! spread over threads is the transform of a batch's elements.
//!
//! Every function states what it returns in its contract, and `laws` states
//! what holds of whole runs: the order in which elements leave a bucket queue,
//! that none is lost or served twice, and how the event loop moves a record
//! from pending to queued to processed.

pub mod batch;
pub mod batchedheap;
pub mod binaryheap;
pub mod buckets;
pub mod driver;
pub mod event;
pub mod key;
pub mod laws;
pub mod order;
pub mod parallelbucketqueue;
pub mod pardriver;
pub mod queue;
pub mod segbucketqueue;
pub mod sequentialbucketqueue;
pub mod windows;

pub use batchedheap::BatchedBinaryHeap;
pub use binaryheap::BinaryHeap;
pub use event::KeyVal;
pub use key::{ConfigurationError, HasKey};
pub use parallelbucketqueue::ParBqueue;
pub use queue::{ParallelPriorityQueue, SeqentialPriorityQueue};
pub use sequentialbucketqueue::Bqueue;
