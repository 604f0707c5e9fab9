//! Analysis of a paragraph before shaping.

pub mod bidi;
