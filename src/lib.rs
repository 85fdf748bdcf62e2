//! Bootstrap memory primitives for a freestanding kernel: a double-ended
//! bump allocator and an open-addressing hash map with a per-instance seed.

pub mod early;
pub mod map;
