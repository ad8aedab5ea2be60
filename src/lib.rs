//! A hierarchical document of typed entities whose properties hold expressions
//! that may reference other properties, with dependency tracking and cascades.
pub mod pon;
pub mod document;
