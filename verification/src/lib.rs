//! Digests of XML subtrees: node-set selection, inclusive canonicalization,
//! hashing and Base64 encoding.
use vstd::prelude::*;

pub mod base64;
pub mod bytes;
pub mod canonical;
pub mod digest;
pub mod document;
pub mod encoding;
pub mod error;
pub mod invariance;
pub mod nodeset;
pub mod order;
pub mod permutation;
pub mod pipeline;
pub mod records;
pub mod subtree;
pub mod text;
pub mod unique;

use vstd::utf8::{encode_utf8, encode_utf8_decode_utf8, valid_utf8};
use crate::base64::{base64_encode, base64_text, lemma_encode_len};
use crate::canonical::canonical_form;
use crate::digest::sha1;
use crate::document::{Document, NodeView, well_formed};
use crate::encoding::{lemma_canonical_text_valid, utf8_document};
use crate::error::Error;
use crate::nodeset::{node_supported, selection};
use crate::subtree::{canonical_text, lemma_rendering_of_subtree};
use crate::pipeline::{
    Pipeline,
    TransformStage,
    chain,
    is_standard,
    result_text,
    run_output,
    selection_fits,
};
use crate::text::{ascii_text, lemma_ascii_text_bytes};

verus! {

/// The digest of the subtree of a context node, as text: the Base64
/// encoding of the SHA-1 hash of the canonical form of the nodes that the
/// selector gives for the subtree, without comments. Where the selector or
/// the canonicalizer fails, that failure.
pub open spec fn node_hash(nodes: Seq<NodeView>, context: int) -> Result<Seq<char>, Error> {
    match selection(nodes, context, false, false) {
        Ok(entries) => match canonical_form(entries) {
            Ok(bytes) => Ok(base64_text(sha1(bytes))),
            Err(e) => Err(e),
        },
        Err(e) => Err(e),
    }
}

/// The digest of the subtree of a context node, stated on the tree:
/// `InvalidXml` where the context node is none of the document;
/// `SelectorError` where the subtree holds a node of an unsupported kind;
/// `EncodingError` where the canonical text of the subtree is not
/// well-formed UTF-8; else the Base64 encoding of the SHA-1 hash of that
/// text.
pub open spec fn subtree_hash(nodes: Seq<NodeView>, context: int) -> Result<Seq<char>, Error> {
    if context < 0 || context >= nodes.len() {
        Err(Error::InvalidXml)
    } else if !node_supported(nodes, context) {
        Err(Error::SelectorError)
    } else {
        let text = canonical_text(nodes, context, false);
        if valid_utf8(text) {
            Ok(base64_text(sha1(text)))
        } else {
            Err(Error::EncodingError)
        }
    }
}

/// A subtree of a document whose names and values are well-formed UTF-8
/// has a digest exactly where the context node is a node of the document
/// and the subtree holds no node of an unsupported kind.
pub proof fn lemma_hash_of_utf8_document(nodes: Seq<NodeView>, context: int)
    requires
        utf8_document(nodes),
    ensures
        subtree_hash(nodes, context) is Ok <==> 0 <= context < nodes.len() && node_supported(
            nodes,
            context,
        ),
        subtree_hash(nodes, context) != Err::<Seq<char>, Error>(Error::EncodingError),
{
    lemma_canonical_text_valid(nodes, context, false);
}

/// The digest that the stages compute one after the other is the digest
/// stated on the tree.
pub proof fn lemma_node_hash_of_subtree(nodes: Seq<NodeView>, context: int)
    requires
        well_formed(nodes),
        nodes.len() <= usize::MAX,
        selection_fits(nodes, context),
    ensures
        node_hash(nodes, context) == subtree_hash(nodes, context),
{
    if 0 <= context < nodes.len() && node_supported(nodes, context) {
        lemma_rendering_of_subtree(nodes, context, false);
    }
}

/// The standard pipeline gives the bytes of the digest text of a subtree,
/// and fails where the selector or the canonicalizer fails.
pub proof fn lemma_standard_run(stages: Seq<TransformStage>, nodes: Seq<NodeView>, context: int)
    requires
        is_standard(stages),
    ensures
        run_output(stages, nodes, context) == match node_hash(nodes, context) {
            Ok(text) => Ok::<Seq<u8>, Error>(encode_utf8(text)),
            Err(e) => Err(e),
        },
{
    reveal_with_fuel(chain, 4);
    match selection(nodes, context, false, false) {
        Ok(entries) => match canonical_form(entries) {
            Ok(bytes) => {
                let encoded = base64_encode(sha1(bytes));
                lemma_encode_len(sha1(bytes));
                lemma_ascii_text_bytes(encoded);
                assert(base64_text(sha1(bytes)) == ascii_text(encoded));
            },
            Err(_) => {},
        },
        Err(_) => {},
    }
}

/// Computes the digest of the subtree of `node` as printable text: selects
/// the nodes of the subtree, canonicalizes them, hashes the canonical bytes
/// with SHA-1 and encodes the hash in Base64.
///
/// Fails with `InvalidXml` where `node` names no node of the document, with
/// `SelectorError` where the subtree holds a node of an unsupported kind,
/// and with `EncodingError` where the canonical bytes are not well-formed
/// UTF-8.
pub fn create_node_hash(doc: &Document, node: usize) -> (r: Result<String, Error>)
    requires
        doc.wf(),
    ensures
        result_text(r) == node_hash(doc@, node as int),
        result_text(r) == subtree_hash(doc@, node as int),
{
    let pipeline = Pipeline::standard();
    proof {
        lemma_standard_run(pipeline.stages@, doc@, node as int);
    }
    let r = pipeline.run(doc, node);
    proof {
        if r is Ok {
            encode_utf8_decode_utf8(r.unwrap()@);
            encode_utf8_decode_utf8(node_hash(doc@, node as int).unwrap());
        }
        doc.lemma_len_fits();
        lemma_node_hash_of_subtree(doc@, node as int);
    }
    r
}

} // verus!
