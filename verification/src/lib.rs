//! Structure-preserving translation of rich-text documents.
//!
//! A document tree is normalized, its human-readable leaf text is extracted
//! into separator-joined chunks, the chunks are translated under an integrity
//! check, and the translated fragments are written back into the very leaves
//! they came from.
pub mod chunk;
pub mod cli;
pub mod translate;
