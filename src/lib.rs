//! A first-fit heap allocator for a bare-metal kernel.
//!
//! The managed memory is an extent of addresses. Free byte ranges are kept as
//! `(address, size)` blocks in an ordered free list; allocation walks the list
//! and takes the first block that can hold the request, splitting off what is
//! left, and freeing puts a block back and merges it with its neighbours.
//!
//! - `block`: byte ranges, and counting and summing over sequences of them.
//! - `heap`: the first-fit engine and its model.
//! - `bootstrap`: the extent to manage, from boot descriptors or from pages.
//! - `state`: the lifecycle, uninitialized or serving from a heap.
//! - `allocator`: the lifecycle behind one lock, shared by all callers.
//! - `laws`: what holds of every heap and every sequence of requests.
pub mod block;
pub mod heap;
pub mod bootstrap;
pub mod state;
pub mod allocator;
pub mod laws;
