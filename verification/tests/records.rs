use hash_lyzer::create_node_hash;
use hash_lyzer::document::{Document, NodeKind};
use hash_lyzer::error::Error;
use hash_lyzer::records::{
    find_record_parts, has_name, hash_log_records, PartFailure, PartKind, RecordPart, RECORD_BODY,
    RECORD_ELEMENT, RECORD_HEADER,
};

const LR: &[u8] = b"http://www.smpte-ra.org/schemas/430-4/2008/LogRecord/";

fn add_record(doc: &mut Document, root: usize, id: &[u8], sub_type: &[u8]) -> (usize, usize) {
    let record = doc.add_element(Some(root), b"lr", b"LogRecordElement", LR).unwrap();
    let header = doc.add_element(Some(record), b"lr", b"LogRecordHeader", LR).unwrap();
    let event = doc.add_element(Some(header), b"lr", b"EventID", LR).unwrap();
    doc.add_text(Some(event), id).unwrap();
    let body = doc.add_element(Some(record), b"lr", b"LogRecordBody", LR).unwrap();
    let kind = doc.add_element(Some(body), b"lr", b"EventSubType", LR).unwrap();
    doc.add_text(Some(kind), sub_type).unwrap();
    doc.add_element(Some(record), b"lr", b"LogRecordSignature", LR).unwrap();
    (header, body)
}

fn report() -> (Document, usize) {
    let mut doc = Document::new();
    let root = doc.add_element(None, b"lr", b"LogReport", LR).unwrap();
    doc.declare_namespace(root, b"lr", LR).unwrap();
    (doc, root)
}

#[test]
fn parts_are_found_in_document_order() {
    let (mut doc, root) = report();
    doc.add_element(Some(root), b"lr", b"reportDate", LR).unwrap();
    let (h1, b1) = add_record(&mut doc, root, b"1", b"SPBStartup");
    doc.add_comment(Some(root), b"between").unwrap();
    let (h2, b2) = add_record(&mut doc, root, b"2", b"SPBShutdown");
    // A header outside a record does not count, nor does one deeper in a record.
    doc.add_element(Some(root), b"lr", b"LogRecordHeader", LR).unwrap();
    doc.add_element(Some(b2), b"lr", b"LogRecordHeader", LR).unwrap();
    assert_eq!(
        find_record_parts(&doc, root),
        vec![
            RecordPart { kind: PartKind::Header, node: h1 },
            RecordPart { kind: PartKind::Body, node: b1 },
            RecordPart { kind: PartKind::Header, node: h2 },
            RecordPart { kind: PartKind::Body, node: b2 },
        ]
    );
    assert_eq!(find_record_parts(&doc, h1), Vec::new());
    assert_eq!(find_record_parts(&doc, doc.len()), Vec::new());
}

#[test]
fn a_body_may_stand_before_its_header() {
    let (mut doc, root) = report();
    let record = doc.add_element(Some(root), b"", b"LogRecordElement", b"").unwrap();
    let body = doc.add_element(Some(record), b"", b"LogRecordBody", b"").unwrap();
    doc.add_text(Some(record), b"\n").unwrap();
    let header = doc.add_element(Some(record), b"", b"LogRecordHeader", b"").unwrap();
    assert_eq!(
        find_record_parts(&doc, root),
        vec![
            RecordPart { kind: PartKind::Body, node: body },
            RecordPart { kind: PartKind::Header, node: header },
        ]
    );
}

#[test]
fn names_are_told_apart() {
    let (mut doc, root) = report();
    let (header, body) = add_record(&mut doc, root, b"1", b"x");
    let text = doc.add_text(Some(root), b"LogRecordElement").unwrap();
    assert!(has_name(&doc, header, RECORD_HEADER));
    assert!(!has_name(&doc, header, RECORD_BODY));
    assert!(has_name(&doc, body, RECORD_BODY));
    assert!(has_name(&doc, doc.node(header).unwrap().parent.unwrap(), RECORD_ELEMENT));
    assert!(has_name(&doc, root, "LogReport"));
    assert!(!has_name(&doc, root, "LogRepor"));
    assert!(!has_name(&doc, root, "lr:LogReport"));
    assert!(!has_name(&doc, text, RECORD_ELEMENT));
    assert!(!has_name(&doc, doc.len(), RECORD_ELEMENT));
}

#[test]
fn every_part_has_its_digest() {
    let (mut doc, root) = report();
    let (h1, b1) = add_record(&mut doc, root, b"1", b"SPBStartup");
    let (h2, b2) = add_record(&mut doc, root, b"2", b"SPBShutdown");
    let hashes = hash_log_records(&doc, root);
    assert_eq!(
        hashes.header_hashes,
        vec![create_node_hash(&doc, h1).unwrap(), create_node_hash(&doc, h2).unwrap()]
    );
    assert_eq!(
        hashes.body_hashes,
        vec![create_node_hash(&doc, b1).unwrap(), create_node_hash(&doc, b2).unwrap()]
    );
    assert_eq!(
        hashes.header_hashes,
        vec!["un7Fa1WKo7iy07/NXpkFZBhoxLs=", "ZfAMKDNI7+wFe7mkCpnQlqFvKos="]
    );
    assert_eq!(
        hashes.body_hashes,
        vec!["zJzMwpMA6oodKgrVQsuP92vfnZo=", "dDlIhVI6RzVJCs/VyrQIzFsWWRs="]
    );
    assert_eq!(hashes.failures.len(), 0);
}

#[test]
fn a_report_without_records_has_no_digests() {
    let (mut doc, root) = report();
    doc.add_element(Some(root), b"lr", b"reportDate", LR).unwrap();
    let hashes = hash_log_records(&doc, root);
    assert_eq!(hashes.header_hashes.len(), 0);
    assert_eq!(hashes.body_hashes.len(), 0);
    assert_eq!(hashes.failures.len(), 0);
    let hashes = hash_log_records(&Document::new(), 0);
    assert_eq!(hashes.header_hashes.len(), 0);
    assert_eq!(hashes.body_hashes.len(), 0);
    assert_eq!(hashes.failures.len(), 0);
}

#[test]
fn a_failure_leaves_the_other_digests() {
    let (mut doc, root) = report();
    let (h1, b1) = add_record(&mut doc, root, b"1", b"SPBStartup");
    let (h2, b2) = add_record(&mut doc, root, b"2", b"SPBShutdown");
    let (h3, b3) = add_record(&mut doc, root, b"3", b"SPBOpen");
    let all = hash_log_records(&doc, root);
    assert_eq!(all.header_hashes.len(), 3);
    assert_eq!(all.body_hashes.len(), 3);
    assert_eq!(all.failures, Vec::new());

    // The header of the second record cannot be written as text.
    doc.add_text(Some(h2), &[0xff]).unwrap();
    let hashes = hash_log_records(&doc, root);
    assert_eq!(
        hashes.failures,
        vec![PartFailure {
            part: RecordPart { kind: PartKind::Header, node: h2 },
            error: Error::EncodingError,
        }]
    );
    assert_eq!(
        hashes.header_hashes,
        vec![all.header_hashes[0].clone(), all.header_hashes[2].clone()]
    );
    assert_eq!(hashes.body_hashes, all.body_hashes);
    assert_eq!(hashes.header_hashes[0], create_node_hash(&doc, h1).unwrap());
    assert_eq!(hashes.header_hashes[1], create_node_hash(&doc, h3).unwrap());
    assert_eq!(hashes.body_hashes[1], create_node_hash(&doc, b2).unwrap());

    // The body of the first record holds a node that node sets do not take.
    doc.add_content(Some(b1), NodeKind::Unsupported, b"").unwrap();
    let hashes = hash_log_records(&doc, root);
    assert_eq!(
        hashes.failures,
        vec![
            PartFailure {
                part: RecordPart { kind: PartKind::Body, node: b1 },
                error: Error::SelectorError,
            },
            PartFailure {
                part: RecordPart { kind: PartKind::Header, node: h2 },
                error: Error::EncodingError,
            },
        ]
    );
    assert_eq!(
        hashes.header_hashes,
        vec![all.header_hashes[0].clone(), all.header_hashes[2].clone()]
    );
    assert_eq!(
        hashes.body_hashes,
        vec![all.body_hashes[1].clone(), all.body_hashes[2].clone()]
    );
    assert_eq!(hashes.body_hashes[1], create_node_hash(&doc, b3).unwrap());
}

#[test]
fn every_part_may_fail() {
    let (mut doc, root) = report();
    let (h1, b1) = add_record(&mut doc, root, b"1", b"SPBStartup");
    doc.add_content(Some(h1), NodeKind::Unsupported, b"").unwrap();
    doc.add_text(Some(b1), &[0x80]).unwrap();
    let hashes = hash_log_records(&doc, root);
    assert_eq!(hashes.header_hashes.len(), 0);
    assert_eq!(hashes.body_hashes.len(), 0);
    assert_eq!(
        hashes.failures,
        vec![
            PartFailure {
                part: RecordPart { kind: PartKind::Header, node: h1 },
                error: Error::SelectorError,
            },
            PartFailure {
                part: RecordPart { kind: PartKind::Body, node: b1 },
                error: Error::EncodingError,
            },
        ]
    );
}
