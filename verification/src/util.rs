//! Arenas and the data structures built on them.

pub mod byte_block_pool;
pub mod byte_slice_reader;
pub mod bytes_ref_hash;
pub mod disi_priority_queue;
pub mod int_block_pool;
