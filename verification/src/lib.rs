//! Generational slot allocators.
//!
//! An allocator hands out copyable handles to the values stored in it, and inserts,
//! removes and looks up in constant time. Two designs are provided.
//!
//! The compacting maps, [`naive::NaiveSlotMap`] and [`unique::UniqueNaiveSlotMap`],
//! keep their values packed in a dense store and validate handles with a generation
//! counter, so that a handle whose slot was recycled resolves to nothing. What they
//! do is stated over the mathematical model in [`arena`].
//!
//! The non-compacting map, [`bvmap::BvMap`], never moves a value: it records in a bit
//! vector which cells are occupied and refills holes from a free list. It does not
//! detect stale handles. What it does is stated over the model in [`cells`].

pub mod arena;
pub mod bag;
pub mod bits;
pub mod bvmap;
pub mod cells;
pub mod naive;
pub mod slice_mut;
pub mod unique;
