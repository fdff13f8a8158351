//! A fixed-capacity circular byte buffer with bulk enqueue/dequeue and
//! overwrite-oldest semantics, intended for bounded-memory byte streaming.

pub mod laws;
pub mod ring;

pub use ring::RingBuffer;
pub use ring::RING_BUFFER_SZ;
