//! Identifier allocation and bulk-load text encoding for RDF and flat-record imports.

pub mod clean;
pub mod literals;
pub mod nodes;
pub mod pgcode;
pub mod statement;
pub mod triples;
