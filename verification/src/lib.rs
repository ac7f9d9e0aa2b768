//! Flexographic plate-deformation calculator core.
//!
//! The library keeps six interdependent numeric fields (gear count, pitch,
//! roller girth, plate thickness, deformation ratio and a before/after
//! dimension pair) consistent while any one of them is edited.  Values are
//! carried as canonical decimal text; arithmetic is exact rational
//! arithmetic, so every recomputation is specified and proved down to the
//! character sequence that lands in a field.

pub mod engine;
pub mod ratio;
pub mod text;
