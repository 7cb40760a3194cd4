//! Storage substrate for the live streams of one multiplexed connection:
//! a stable-index arena of per-stream state, an index from protocol stream
//! identifiers to arena slots, and intrusive FIFO queues whose link fields
//! live inside the stream objects themselves.

pub mod arena;
pub mod list;
pub mod store;
pub mod stream;
