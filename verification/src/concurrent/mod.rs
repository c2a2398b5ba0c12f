//! Ingestion structures for feeding orders to a single matching thread.
pub mod ring_buffer;

pub use ring_buffer::SpscRingBuffer;
