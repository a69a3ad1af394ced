use hash_lyzer::canonical::canonicalize;
use hash_lyzer::create_node_hash;
use hash_lyzer::document::{Document, NodeKind};
use hash_lyzer::error::Error;
use hash_lyzer::nodeset::select;

const LR: &[u8] = b"http://www.smpte-ra.org/schemas/430-4/2008/LogRecord/";

/// A log report with one record body; returns the document and the index
/// of its `LogRecordBody`.
fn log_report() -> (Document, usize) {
    let mut doc = Document::new();
    let root = doc.add_element(None, b"lr", b"LogReport", LR).unwrap();
    doc.declare_namespace(root, b"lr", LR).unwrap();
    doc.declare_namespace(
        root,
        b"dcml",
        b"http://www.smpte-ra.org/schemas/433/2008/dcmlTypes/",
    )
    .unwrap();
    doc.declare_namespace(root, b"ds", b"http://www.w3.org/2000/09/xmldsig#").unwrap();
    doc.declare_namespace(root, b"xs", b"http://www.w3.org/2001/XMLSchema").unwrap();
    doc.declare_namespace(root, b"xsi", b"http://www.w3.org/2001/XMLSchema-instance").unwrap();

    let node = doc.add_element(Some(root), b"lr", b"LogRecordBody", LR).unwrap();
    let eventid = doc.add_element(Some(node), b"lr", b"EventID", LR).unwrap();
    doc.add_text(Some(eventid), b"urn:uuid:1f9d3a08-edd6-4402-99c0-b80d9c7614fc").unwrap();
    let eventsubtype = doc.add_element(Some(node), b"lr", b"EventSubType", LR).unwrap();
    doc.add_attribute(
        eventsubtype,
        b"",
        b"scope",
        b"",
        b"http://www.smpte-ra.org/430-5/2008/SecurityLog/#EventSubTypes-operations",
    )
    .unwrap();
    doc.add_text(Some(eventsubtype), b"SPBStartup").unwrap();
    (doc, node)
}

#[test]
fn test_create_node_hash() {
    let mut doc = Document::new();
    let root = doc.add_element(None, b"lr", b"LogReport", LR).unwrap();
    doc.declare_namespace(root, b"lr", LR).unwrap();
    doc.declare_namespace(
        root,
        b"dcml",
        b"http://www.smpte-ra.org/schemas/433/2008/dcmlTypes/",
    )
    .unwrap();
    doc.declare_namespace(root, b"ds", b"http://www.w3.org/2000/09/xmldsig#").unwrap();
    doc.declare_namespace(root, b"xs", b"http://www.w3.org/2001/XMLSchema").unwrap();
    doc.declare_namespace(root, b"xsi", b"http://www.w3.org/2001/XMLSchema-instance").unwrap();

    let node = doc.add_element(Some(root), b"lr", b"LogRecordBody", LR).unwrap();
    let eventid = doc.add_element(Some(node), b"lr", b"EventID", LR).unwrap();
    doc.add_text(Some(eventid), b"urn:uuid:1f9d3a08-edd6-4402-99c0-b80d9c7614fc").unwrap();
    let eventsubtype = doc.add_element(Some(node), b"lr", b"EventSubType", LR).unwrap();
    doc.add_attribute(
        eventsubtype,
        b"",
        b"scope",
        b"",
        b"http://www.smpte-ra.org/430-5/2008/SecurityLog/#EventSubTypes-operations",
    )
    .unwrap();
    doc.add_text(Some(eventsubtype), b"SPBStartup").unwrap();

    let data = create_node_hash(&doc, node).unwrap();

    assert_eq!(data, "0HwjYW3B/l79oq2NHVctyN7qMhE=");
}

#[test]
fn canonical_bytes_of_a_record_body() {
    let (doc, node) = log_report();
    let set = select(&doc, node, false, false).unwrap();
    let bytes = canonicalize(&set).unwrap();
    let expected = "<lr:LogRecordBody \
xmlns:dcml=\"http://www.smpte-ra.org/schemas/433/2008/dcmlTypes/\" \
xmlns:ds=\"http://www.w3.org/2000/09/xmldsig#\" \
xmlns:lr=\"http://www.smpte-ra.org/schemas/430-4/2008/LogRecord/\" \
xmlns:xs=\"http://www.w3.org/2001/XMLSchema\" \
xmlns:xsi=\"http://www.w3.org/2001/XMLSchema-instance\">\
<lr:EventID>urn:uuid:1f9d3a08-edd6-4402-99c0-b80d9c7614fc</lr:EventID>\
<lr:EventSubType \
scope=\"http://www.smpte-ra.org/430-5/2008/SecurityLog/#EventSubTypes-operations\">\
SPBStartup</lr:EventSubType></lr:LogRecordBody>";
    assert_eq!(String::from_utf8(bytes).unwrap(), expected);
}

#[test]
fn repeated_runs_give_the_same_text() {
    let (doc, node) = log_report();
    let first = create_node_hash(&doc, node).unwrap();
    let second = create_node_hash(&doc, node).unwrap();
    let third = create_node_hash(&doc, node).unwrap();
    assert_eq!(first, second);
    assert_eq!(second, third);
}

#[test]
fn hash_of_an_empty_element() {
    let mut doc = Document::new();
    let a = doc.add_element(None, b"", b"a", b"").unwrap();
    assert_eq!(create_node_hash(&doc, a).unwrap(), "9hvH4qztnIYgYfJDRLnEMPJdoaY=");
}

#[test]
fn hash_of_an_element_with_an_attribute() {
    let mut doc = Document::new();
    let a = doc.add_element(None, b"", b"a", b"").unwrap();
    doc.add_attribute(a, b"", b"b", b"", b"1").unwrap();
    assert_eq!(create_node_hash(&doc, a).unwrap(), "Abx6kxC+ZN659Qwc0ftHs9Lc4tY=");
}

#[test]
fn context_outside_the_document_is_invalid_xml() {
    let (doc, _) = log_report();
    assert_eq!(create_node_hash(&doc, doc.len()), Err(Error::InvalidXml));
    assert_eq!(create_node_hash(&doc, usize::MAX), Err(Error::InvalidXml));
    let empty = Document::new();
    assert_eq!(create_node_hash(&empty, 0), Err(Error::InvalidXml));
}

#[test]
fn unsupported_node_in_the_subtree_is_a_selector_error() {
    let (mut doc, node) = log_report();
    doc.add_content(Some(node), NodeKind::Unsupported, b"target data").unwrap();
    assert_eq!(create_node_hash(&doc, node), Err(Error::SelectorError));
    // A sibling subtree without such a node is not touched by it.
    let mut doc = Document::new();
    let root = doc.add_element(None, b"", b"r", b"").unwrap();
    let a = doc.add_element(Some(root), b"", b"a", b"").unwrap();
    doc.add_content(Some(root), NodeKind::Unsupported, b"").unwrap();
    assert_eq!(create_node_hash(&doc, a).unwrap(), "9hvH4qztnIYgYfJDRLnEMPJdoaY=");
    assert_eq!(create_node_hash(&doc, root), Err(Error::SelectorError));
}

#[test]
fn bytes_that_are_no_utf8_are_an_encoding_error() {
    let mut doc = Document::new();
    let a = doc.add_element(None, b"", b"a", b"").unwrap();
    doc.add_text(Some(a), &[0xff, 0xfe]).unwrap();
    assert_eq!(create_node_hash(&doc, a), Err(Error::EncodingError));
}

#[test]
fn attribute_order_does_not_change_the_hash() {
    let mut first = Document::new();
    let a = first.add_element(None, b"", b"a", b"").unwrap();
    first.declare_namespace(a, b"p", b"urn:p").unwrap();
    first.declare_namespace(a, b"q", b"urn:q").unwrap();
    first.add_attribute(a, b"", b"x", b"", b"1").unwrap();
    first.add_attribute(a, b"q", b"y", b"urn:q", b"2").unwrap();
    first.add_attribute(a, b"p", b"z", b"urn:p", b"3").unwrap();

    let mut second = Document::new();
    let b = second.add_element(None, b"", b"a", b"").unwrap();
    second.declare_namespace(b, b"q", b"urn:q").unwrap();
    second.declare_namespace(b, b"p", b"urn:p").unwrap();
    second.add_attribute(b, b"p", b"z", b"urn:p", b"3").unwrap();
    second.add_attribute(b, b"q", b"y", b"urn:q", b"2").unwrap();
    second.add_attribute(b, b"", b"x", b"", b"1").unwrap();

    let bytes_first = canonicalize(&select(&first, a, false, false).unwrap()).unwrap();
    let bytes_second = canonicalize(&select(&second, b, false, false).unwrap()).unwrap();
    assert_eq!(bytes_first, bytes_second);
    assert_eq!(
        String::from_utf8(bytes_first).unwrap(),
        "<a xmlns:p=\"urn:p\" xmlns:q=\"urn:q\" x=\"1\" p:z=\"3\" q:y=\"2\"></a>"
    );
    assert_eq!(create_node_hash(&first, a).unwrap(), create_node_hash(&second, b).unwrap());
}

#[test]
fn an_inserted_comment_does_not_change_the_hash() {
    let (doc, node) = log_report();
    let expected = "0HwjYW3B/l79oq2NHVctyN7qMhE=";
    assert_eq!(create_node_hash(&doc, node).unwrap(), expected);
    // Under the context node, at every place among its children.
    for position in 0..3 {
        let (mut doc, node) = log_report();
        doc.insert_comment(node, position, b" a remark ").unwrap();
        assert_eq!(create_node_hash(&doc, node).unwrap(), expected);
    }
    // Deeper in the subtree, before and after the text.
    for position in 0..2 {
        let (mut doc, node) = log_report();
        let eventid = doc.node(node).unwrap().children[0];
        doc.insert_comment(eventid, position, b"remark").unwrap();
        assert_eq!(create_node_hash(&doc, node).unwrap(), expected);
    }
    // Outside the subtree.
    let (mut doc, node) = log_report();
    doc.insert_comment(0, 0, b"remark").unwrap();
    assert_eq!(create_node_hash(&doc, node).unwrap(), expected);
}
