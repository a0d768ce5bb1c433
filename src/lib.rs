//! A fixed-capacity circular byte buffer for one producer and one consumer.

pub mod bits;
pub mod ring_buffer_seq;
