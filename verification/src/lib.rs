//! A per-key debounce for a sequence of key/value pairs.
//!
//! Every pair that comes in is held back for a fixed delay. A newer pair with
//! the same key replaces the one that is still waiting and starts the wait
//! again, so that only the latest value of a key goes out, once the key has
//! been quiet for the whole delay.
//!
//! Keys and values are 64-bit words. Instants are readings of one monotonic
//! clock, as a count of ticks, and the delay is a count of the same ticks.
//!
//! The crate holds the decisions only: the buffer of waiting entries, the wait
//! of the one timer, and the step functions that a host calls with what its
//! source and its timer reported. Polling a source and sleeping are left to
//! the host.

pub mod buffer;
pub mod delayed_stream;
pub mod invariants;
pub mod key_value;
pub mod laws;
pub mod linked_map;
pub mod model;
pub mod timed_item;
pub mod timeline;
pub mod timer;

pub use buffer::Buffer;
pub use delayed_stream::DelayedStream;
pub use key_value::KeyValue;
pub use model::{Advance, SourcePoll};
pub use timed_item::TimedItem;
pub use timer::{Timer, TimerOp};
