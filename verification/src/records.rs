//! The digests of the log records of a log report.
//!
//! A log report holds its records as children of its root element. Every
//! record is an element named `LogRecordElement`; its header and its body
//! are children of the record, named `LogRecordHeader` and `LogRecordBody`,
//! and each of the two has a digest of its own. A part whose digest cannot
//! be computed is reported with its failure; the digests of all other parts
//! are computed all the same.
use vstd::prelude::*;
use vstd::utf8::encode_utf8;
use crate::bytes::bytes_equal;
use crate::create_node_hash;
use crate::document::{Document, NodeKind, NodeView, node_fits};
use crate::error::Error;
use crate::node_hash;

verus! {

/// The local name of a log record.
pub const RECORD_ELEMENT: &'static str = "LogRecordElement";

/// The local name of the header of a log record.
pub const RECORD_HEADER: &'static str = "LogRecordHeader";

/// The local name of the body of a log record.
pub const RECORD_BODY: &'static str = "LogRecordBody";

/// Which part of a log record a node is.
#[derive(Clone, Copy, Debug, PartialEq, Eq, Structural)]
pub enum PartKind {
    Header,
    Body,
}

/// A part of a log record: a header or a body, and the node that holds it.
#[derive(Clone, Copy, Debug, PartialEq, Eq, Structural)]
pub struct RecordPart {
    pub kind: PartKind,
    pub node: usize,
}

/// A part of a log record that has no digest, and why it has none.
#[derive(Clone, Copy, Debug, PartialEq, Eq, Structural)]
pub struct PartFailure {
    pub part: RecordPart,
    pub error: Error,
}

/// The digests of the headers and of the bodies of the log records of a
/// report, and the parts that have no digest, each list in document order.
#[derive(Debug)]
pub struct RecordHashes {
    pub header_hashes: Vec<String>,
    pub body_hashes: Vec<String>,
    pub failures: Vec<PartFailure>,
}

/// True when `id` names an element with the local name `name`.
pub open spec fn is_named(nodes: Seq<NodeView>, id: int, name: Seq<char>) -> bool {
    0 <= id < nodes.len() && nodes[id].kind == NodeKind::Element && nodes[id].local_name
        == encode_utf8(name)
}

/// The part of a log record that node `id` is, if it is one.
pub open spec fn part_at(nodes: Seq<NodeView>, id: usize) -> Seq<RecordPart> {
    if is_named(nodes, id as int, RECORD_HEADER@) {
        seq![RecordPart { kind: PartKind::Header, node: id }]
    } else if is_named(nodes, id as int, RECORD_BODY@) {
        seq![RecordPart { kind: PartKind::Body, node: id }]
    } else {
        Seq::empty()
    }
}

/// The headers and bodies among the first `count` children of a record, in
/// document order.
pub open spec fn parts_of_record(nodes: Seq<NodeView>, record: int, count: int) -> Seq<RecordPart>
    decreases count,
{
    if count <= 0 {
        Seq::empty()
    } else {
        parts_of_record(nodes, record, count - 1) + part_at(
            nodes,
            nodes[record].children[count - 1],
        )
    }
}

/// The headers and bodies of the log records among the first `count`
/// children of `root`, in document order.
pub open spec fn parts_of_records(nodes: Seq<NodeView>, root: int, count: int) -> Seq<RecordPart>
    decreases count,
{
    if count <= 0 {
        Seq::empty()
    } else {
        let child = nodes[root].children[count - 1] as int;
        parts_of_records(nodes, root, count - 1) + if is_named(nodes, child, RECORD_ELEMENT@) {
            parts_of_record(nodes, child, nodes[child].children.len() as int)
        } else {
            Seq::empty()
        }
    }
}

/// The headers and bodies of all log records below `root`, in document
/// order; none where `root` is no node of the document.
pub open spec fn record_parts(nodes: Seq<NodeView>, root: int) -> Seq<RecordPart> {
    if 0 <= root < nodes.len() {
        parts_of_records(nodes, root, nodes[root].children.len() as int)
    } else {
        Seq::empty()
    }
}

/// The parts whose digest cannot be computed, in their order, each with
/// the failure of its digest.
pub open spec fn part_failures(nodes: Seq<NodeView>, parts: Seq<RecordPart>) -> Seq<PartFailure>
    decreases parts.len(),
{
    if parts.len() == 0 {
        Seq::empty()
    } else {
        let last = parts.last();
        part_failures(nodes, parts.drop_last()) + match node_hash(nodes, last.node as int) {
            Ok(_) => Seq::empty(),
            Err(e) => seq![PartFailure { part: last, error: e }],
        }
    }
}

/// The digests of the parts of one kind, in their order. A part without a
/// digest gives none.
pub open spec fn part_hashes(nodes: Seq<NodeView>, parts: Seq<RecordPart>, kind: PartKind) -> Seq<
    Seq<char>,
>
    decreases parts.len(),
{
    if parts.len() == 0 {
        Seq::empty()
    } else {
        let last = parts.last();
        part_hashes(nodes, parts.drop_last(), kind) + match node_hash(nodes, last.node as int) {
            Ok(text) => if last.kind == kind {
                seq![text]
            } else {
                Seq::empty()
            },
            Err(_) => Seq::empty(),
        }
    }
}

/// The texts of a list.
pub open spec fn texts(list: Seq<String>) -> Seq<Seq<char>> {
    list.map_values(|s: String| s@)
}

/// Returns true when `id` names an element with the local name `name`.
pub fn has_name(doc: &Document, id: usize, name: &str) -> (yes: bool)
    requires
        doc.wf(),
    ensures
        yes == is_named(doc@, id as int, name@),
{
    if id >= doc.len() {
        return false;
    }
    let node = doc.node_at(id);
    node.kind == NodeKind::Element && bytes_equal(node.local_name.as_slice(), name.as_bytes())
}

/// Returns the headers and bodies of the log records below `root`, in
/// document order.
pub fn find_record_parts(doc: &Document, root: usize) -> (parts: Vec<RecordPart>)
    requires
        doc.wf(),
    ensures
        parts@ == record_parts(doc@, root as int),
{
    let mut parts: Vec<RecordPart> = Vec::new();
    if root >= doc.len() {
        return parts;
    }
    let top = doc.node_at(root);
    let mut i: usize = 0;
    while i < top.children.len()
        invariant
            doc.wf(),
            root < doc@.len(),
            top@ == doc@[root as int],
            i <= top.children@.len(),
            parts@ == parts_of_records(doc@, root as int, i as int),
        decreases top.children@.len() - i,
    {
        let child: usize = top.children[i];
        let ghost found = parts@;
        assert(node_fits(doc@, root as int));
        assert(doc@[root as int].children[i as int] < doc@.len());
        if has_name(doc, child, RECORD_ELEMENT) {
            let record = doc.node_at(child);
            let mut j: usize = 0;
            assert(found + parts_of_record(doc@, child as int, 0) =~= found);
            while j < record.children.len()
                invariant
                    doc.wf(),
                    child < doc@.len(),
                    record@ == doc@[child as int],
                    j <= record.children@.len(),
                    parts@ == found + parts_of_record(doc@, child as int, j as int),
                decreases record.children@.len() - j,
            {
                let part: usize = record.children[j];
                let ghost before = parts@;
                if has_name(doc, part, RECORD_HEADER) {
                    parts.push(RecordPart { kind: PartKind::Header, node: part });
                } else if has_name(doc, part, RECORD_BODY) {
                    parts.push(RecordPart { kind: PartKind::Body, node: part });
                }
                assert(parts@ =~= before + part_at(doc@, part));
                assert(parts@ =~= found + parts_of_record(doc@, child as int, j + 1));
                j = j + 1;
            }
        } else {
            assert(parts@ =~= found + Seq::<RecordPart>::empty());
        }
        i = i + 1;
    }
    parts
}

/// Computes the digests of the headers and of the bodies of the log
/// records below `root`, in document order. A part whose digest fails is
/// left out of the digests and listed with its failure; the work goes on
/// with the next part.
pub fn hash_log_records(doc: &Document, root: usize) -> (hashes: RecordHashes)
    requires
        doc.wf(),
    ensures
        texts(hashes.header_hashes@) == part_hashes(
            doc@,
            record_parts(doc@, root as int),
            PartKind::Header,
        ),
        texts(hashes.body_hashes@) == part_hashes(
            doc@,
            record_parts(doc@, root as int),
            PartKind::Body,
        ),
        hashes.failures@ == part_failures(doc@, record_parts(doc@, root as int)),
{
    let parts = find_record_parts(doc, root);
    let mut header_hashes: Vec<String> = Vec::new();
    let mut body_hashes: Vec<String> = Vec::new();
    let mut failures: Vec<PartFailure> = Vec::new();
    let mut k: usize = 0;
    assert(parts@.take(0) =~= Seq::empty());
    assert(texts(header_hashes@) =~= Seq::empty());
    assert(texts(body_hashes@) =~= Seq::empty());
    while k < parts.len()
        invariant
            doc.wf(),
            k <= parts@.len(),
            parts@ == record_parts(doc@, root as int),
            texts(header_hashes@) == part_hashes(doc@, parts@.take(k as int), PartKind::Header),
            texts(body_hashes@) == part_hashes(doc@, parts@.take(k as int), PartKind::Body),
            failures@ == part_failures(doc@, parts@.take(k as int)),
        decreases parts@.len() - k,
    {
        let part: RecordPart = parts[k];
        let ghost headers = texts(header_hashes@);
        let ghost bodies = texts(body_hashes@);
        let ghost failed = failures@;
        proof {
            assert(parts@.take(k + 1).drop_last() =~= parts@.take(k as int));
            assert(parts@.take(k + 1).last() == part);
        }
        match create_node_hash(doc, part.node) {
            Ok(text) => {
                match part.kind {
                    PartKind::Header => {
                        header_hashes.push(text);
                        assert(texts(header_hashes@) =~= headers + seq![text@]);
                        assert(texts(body_hashes@) =~= bodies + Seq::empty());
                    },
                    PartKind::Body => {
                        body_hashes.push(text);
                        assert(texts(body_hashes@) =~= bodies + seq![text@]);
                        assert(texts(header_hashes@) =~= headers + Seq::empty());
                    },
                }
                assert(failures@ =~= failed + Seq::empty());
            },
            Err(e) => {
                failures.push(PartFailure { part, error: e });
                assert(failures@ =~= failed + seq![PartFailure { part, error: e }]);
                assert(texts(header_hashes@) =~= headers + Seq::empty());
                assert(texts(body_hashes@) =~= bodies + Seq::empty());
            },
        }
        k = k + 1;
    }
    assert(parts@.take(k as int) =~= parts@);
    RecordHashes { header_hashes, body_hashes, failures }
}

/// Every part is accounted for once: it has a digest among the headers or
/// among the bodies, or it is listed with its failure.
pub proof fn lemma_parts_accounted(nodes: Seq<NodeView>, parts: Seq<RecordPart>)
    ensures
        part_hashes(nodes, parts, PartKind::Header).len() + part_hashes(
            nodes,
            parts,
            PartKind::Body,
        ).len() + part_failures(nodes, parts).len() == parts.len(),
    decreases parts.len(),
{
    if parts.len() > 0 {
        lemma_parts_accounted(nodes, parts.drop_last());
    }
}

} // verus!
