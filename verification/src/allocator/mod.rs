//! Dynamic memory: the block allocator and the arena behind it.

pub mod arena;
pub mod fixed_size_block;
