//! The core of a small kernel: a block allocator with size classes over a
//! first-fit arena, an in-memory file store with a current directory, and the
//! command shell that works on it.
//!
//! Nothing here touches a device or holds a lock. The state of each part is
//! a value that the caller owns and hands to the operations, and what is to
//! be shown comes back as text.

pub mod allocator;
pub mod filesystem;
pub mod keyboard;
pub mod names;
pub mod path;
pub mod shell;
pub mod text;
pub mod tree;
