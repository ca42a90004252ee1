//! A byte allocator over registered address ranges, a seed generator, and a
//! randomly keyed hash map.
pub mod layout;
pub mod byte_alloc;
pub mod seed;
pub mod hasher;
pub mod map;
