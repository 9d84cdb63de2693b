//! A library for finding the differences between two sequences.
//!
//! The sequences are slices of `u64` keys: lines, words, characters, bytes
//! or records are compared after being mapped, one to one, to such keys.
//! Create a [`Differ`] with [`Differ::new`], then iterate over the
//! [`Span`]s returned by [`Differ::spans`]; the spans show how to transform
//! sequence `a` into sequence `b` using insertions, deletions and
//! replacements.

pub mod model;
mod structs;
mod differ;

pub use crate::differ::Differ;
pub use crate::differ::spans_for_matches;
pub use crate::structs::Match;
pub use crate::structs::Span;
pub use crate::structs::Tag;
