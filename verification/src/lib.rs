//! Recording engine and offline ingestion of a heap-allocation profiler.
//!
//! The crate holds the sequential core of the profiler: the fixed-size event
//! format, the stack fingerprint, the per-thread tracker with its buffer and
//! backtrace dictionary, the tracker pool, the engine lifecycle and the pass
//! that turns a recorded profile into table rows. Locks, thread-local slots,
//! clocks, stack walking and files belong to the embedding program, which
//! hands this crate plain values and writes out what it returns.

pub mod allocator;
pub mod id;
pub mod layout;
pub mod local_tracker;
pub mod parse;
pub mod proto;
pub mod table;

pub use allocator::disable_tracking;
pub use allocator::enable_tracking;
pub use allocator::Allocator;
pub use allocator::TrackerConfig;
pub use parse::parse_profile;
