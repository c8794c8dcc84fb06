//! Constrained random reordering of the sections of a document.
//!
//! A manuscript is split into sections. The writer may fix the first and the
//! last section in place, and may say of any section that it must come before
//! others. From these constraints a precedence graph is built. A cycle in
//! that graph is a paradox, which is reported to the writer for each section
//! on it; a graph without a cycle is put in a random order that respects every
//! constraint.
//!
//! The graph is a directed graph of `petgraph`, chance comes from `rand`, and
//! a delimiter that is a regular expression is handled by `regex`. What these
//! crates do is stated, not proved, in `digraph`, `chance` and `splitting`;
//! everything else is proved from there.

pub mod chance;
pub mod constraints;
pub mod digraph;
pub mod extension;
pub mod laws;
pub mod numerals;
pub mod ordering;
pub mod paradox;
pub mod precedence;
pub mod section_list;
pub mod shuffler;
pub mod splitting;

pub use crate::constraints::Constraints;
pub use crate::shuffler::StoryShufflerApp;
