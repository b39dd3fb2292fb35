//! A generational slot arena that hands out opaque, fixed-width handles.
//!
//! Values are stored in slots of a growable arena. Each insertion returns a
//! [`Handle`] carrying the arena's instance id, the slot index, and the slot's
//! generation counter ("version"). Handles pack losslessly into a `u64`
//! ([`Handle::into_u64`] / [`Handle::from_u64`]), so they can cross boundaries
//! where raw pointers cannot. Every access validates the handle against the
//! arena: stale handles (use-after-free, double-free), handles from a different
//! arena, and out-of-range indices are rejected with a typed [`HandleError`].
//!
//! [`HandleMap`] is the single-threaded arena; [`ConcurrentHandleMap`] layers a
//! verified reader/writer lock over it, with one exclusive lock per stored
//! value, so that accesses to the same handle never overlap while accesses to
//! distinct handles may run in parallel.

pub mod arena;
pub mod concurrent;
pub mod error;
pub mod handle;

pub use arena::Entry;
pub use arena::EntryState;
pub use arena::HandleMap;
pub use arena::MAX_CAPACITY;
pub use arena::MIN_CAPACITY;
pub use concurrent::ConcurrentHandleMap;
pub use error::HandleError;
pub use handle::Handle;
pub use handle::HANDLE_MAGIC;
