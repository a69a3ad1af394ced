//! The kinds of failure that the stages of the digest pipeline report.
use vstd::prelude::*;

verus! {

/// Why a digest could not be computed. Every stage hands a failure of an
/// earlier stage on unchanged.
#[derive(Clone, Copy, Debug, PartialEq, Eq, Structural)]
pub enum Error {
    /// The context node is no node of the document, or nodes do not hang
    /// together as a tree.
    InvalidXml,
    /// A node set refers to its nodes inconsistently: an attribute or a
    /// namespace entry without the element that owns it, or an entry nested
    /// deeper than the elements that are open. Also given where bytes are
    /// handed to canonicalization, which would first have to parse them.
    ParseError,
    /// The digest algorithm that was asked for is not supported.
    UnknownAlgorithm,
    /// Bytes that are to be text are not well-formed UTF-8: the canonical
    /// bytes, or what a pipeline hands out.
    EncodingError,
    /// The selected subtree holds a node of a kind that has no place in a
    /// node set, such as a processing instruction.
    SelectorError,
}

} // verus!
