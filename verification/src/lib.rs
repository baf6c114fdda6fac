//! Flattens a nested document into a map of one level. The keys of the map
//! are the paths of the document's scalars, made of the object keys on the
//! way joined by dots; an array adds nothing to a path. A path that is
//! reached once holds its scalar bare; a path that is reached more than once
//! holds the sequence of its scalars in the order of a depth-first walk.
//!
//! - `document`: the document tree and its mathematical model.
//! - `flat_map`: the flat map and the rule by which scalars are merged.
//! - `flatten`: the walk, and the functions that flatten a document.
//! - `depth`: the depth of a document, for callers that bound it.
//! - `laws`: what holds of every flattening.
//! - `json`: flattening of `serde_json` objects.
//! - `json_value`: what is taken on trust of `serde_json`.
//! - `error`: why a document is refused.

pub mod depth;
pub mod document;
pub mod error;
pub mod flat_map;
pub mod flatten;
pub mod json;
pub mod json_value;
pub mod laws;
