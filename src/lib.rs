//! A value-deduplicating arena.
//!
//! An [`Interner`] owns every value handed to it, keeps at most one copy of
//! each distinct value, and answers with an [`Intern`] handle that names the
//! storage slot of that copy. Values live in fixed-capacity blocks
//! ([`InternedItemHolder`]) that are never resized, so a stored value never
//! moves once placed, and handles compare by slot rather than by value.

pub mod holder;
pub mod interner;
pub mod laws;

pub use holder::InternedItemHolder;
pub use interner::Intern;
pub use interner::Interner;
pub use interner::BEGIN_INTERNER_CAPACITY;
