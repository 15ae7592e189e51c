//! A sparse, byte-addressable memory image over a 32-bit address space.
//!
//! Defined bytes are kept in contiguous runs (`Section`s). An `AddressSpace`
//! keeps its runs sorted by start address, never overlapping, and merges runs
//! as soon as they touch, so that every gap between two runs is made of
//! undefined bytes.
pub mod runs;
pub mod section;
pub mod space;

pub use section::{merge_sections, MergeError, Section, SectionView};
pub use space::{AddressSpace, SectionIter, SpaceError};
