//! Parsed RDF statements, as handed to the identifier allocators.
use vstd::prelude::*;

verus! {

/// The subject of a statement: an IRI or a blank-node key.
pub enum Subject {
    IriRef(String),
    BNode(String),
}

/// The predicate of a statement: always an IRI.
pub enum Predicate {
    IriRef(String),
}

/// The object of a statement: an IRI, a blank-node key, or the text of a literal.
pub enum Object {
    IriRef(String),
    BNode(String),
    Lit(String),
}

/// One parsed statement.
pub struct Triple {
    pub subject: Subject,
    pub predicate: Predicate,
    pub object: Object,
}

/// What a line of N-Triples input holds.
pub enum LineParse {
    /// A statement.
    Statement(Triple),
    /// A line with no statement (blank, or only a comment).
    Empty,
    /// A line that is not valid N-Triples.
    Malformed,
}

} // verus!
