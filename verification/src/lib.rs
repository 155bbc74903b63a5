//! A dynamic memory allocator engine: segregated free lists over
//! page-aligned regions, with splitting, eager coalescing, and the four
//! canonical operations (allocate, release, zero_allocate, resize_allocate).
//!
//! The engine owns its heap as plain data, so every structural rule —
//! blocks tile each region, no two adjacent blocks are both free, the
//! free-list index mirrors exactly the free blocks — is stated as an
//! invariant and proved to be preserved by every operation.

pub mod layout;
pub mod region;
pub mod heap;

pub use layout::ALIGN;
pub use layout::HEADER_SIZE;
pub use layout::MIN_BLOCK;
pub use layout::PAGE;
pub use layout::MIN_REGION;
pub use layout::NUM_CLASSES;
