//! The three TOON layouts: indented text, compact binary, and the tabular
//! rendering of uniform arrays of objects.

pub mod compact;
pub mod tabular;
pub mod text;
