//! A thread-caching slab allocator whose bookkeeping is verified.
//!
//! Addresses are plain integers here: the library decides which address is
//! handed out, which list a freed address joins and when memory goes back to
//! the operating system. The memory itself is mapped by whoever drives it.

pub mod bin;
pub mod bin_laws;
mod bin_proof;
pub mod bin_state;
pub mod global;
pub mod heap;
mod layout;
pub mod metrics;
pub mod pool;
pub mod pprof;
pub mod profile;
pub mod segment;
pub mod size_class;
pub mod slab;
pub mod sys;
pub mod table;
pub mod usage;
pub mod wire;

pub use layout::Layout;
pub use layout::LayoutError;
