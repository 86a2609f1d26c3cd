//! Resolution of a textual import graph among WGSL source files.
//!
//! Source files reference each other by relative or project-root-relative
//! path.  This crate resolves those references over a snapshot of the file
//! tree, builds the directed acyclic import graph, reports cycles and
//! unresolved imports, derives a dependency-first processing order, and
//! assigns every file a short alias that is unique across the whole graph.

pub mod strutil;
pub mod paths;
pub mod filetree;
pub mod errors;
pub mod module;
pub mod graph;
pub mod scan;
pub mod order;
pub mod names;
pub mod exports;
pub mod source;
pub mod mangle;
