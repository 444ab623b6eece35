//! A column-aligning reformatter for assembly-language listings.
//!
//! The library classifies each input line by its structural role (data
//! declaration, instruction, label, directive, or passthrough), re-tokenizes
//! its content, and re-emits the file with normalized indentation, aligned
//! operand columns, and aligned trailing comments.

pub mod classify;
pub mod laws;
pub mod line;
pub mod render;
pub mod text;
