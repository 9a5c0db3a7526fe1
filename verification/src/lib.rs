//! Merging of diagram ("view") definitions between two copies of an
//! ArchiMate-style model document.
//!
//! The library models a parsed document as a plain tree of [`tree::XmlNode`]
//! values.  On top of that tree it builds a queryable index of elements and
//! views, computes which views exist only in a source model, transitively
//! discovers everything a selected view references, and splices those nodes
//! (with their folder hierarchy) into a target model without duplicating
//! content that is already there.
//!
//! Reading and writing files, parsing text into a tree and serializing a tree
//! back to text are left to the callers.

pub mod descriptor;
pub mod folders;
pub mod merge;
pub mod model;
pub mod selection;
pub mod tree;
