use hash_lyzer::document::Document;
use hash_lyzer::digest::SHA1;
use hash_lyzer::error::Error;
use hash_lyzer::nodeset::{select, EntryKind, NodeSet, NodeSetEntry};
use hash_lyzer::pipeline::{Pipeline, StageInput, TransformStage};

fn element_a() -> (Document, usize) {
    let mut doc = Document::new();
    let a = doc.add_element(None, b"", b"a", b"").unwrap();
    (doc, a)
}

fn set_a() -> NodeSet {
    let (doc, a) = element_a();
    select(&doc, a, false, false).unwrap()
}

fn sha1_stage() -> TransformStage {
    TransformStage::Digest(SHA1.to_string())
}

const SHA1_OF_A: [u8; 20] = [
    246, 27, 199, 226, 172, 237, 156, 134, 32, 97, 242, 67, 68, 185, 196, 48, 242, 93, 161, 166,
];

#[test]
fn stages_one_by_one() {
    let canonical = TransformStage::Canonicalize.apply(StageInput::Nodes(set_a())).unwrap();
    assert_eq!(canonical, b"<a></a>".to_vec());
    let hash = sha1_stage().apply(StageInput::Bytes(canonical)).unwrap();
    assert_eq!(hash, SHA1_OF_A.to_vec());
    let text = TransformStage::Base64Encode.apply(StageInput::Bytes(hash)).unwrap();
    assert_eq!(text, b"9hvH4qztnIYgYfJDRLnEMPJdoaY=".to_vec());
}

#[test]
fn a_stage_on_bytes_canonicalizes_a_node_set_first() {
    assert_eq!(sha1_stage().apply(StageInput::Nodes(set_a())).unwrap(), SHA1_OF_A.to_vec());
    assert_eq!(
        TransformStage::Base64Encode.apply(StageInput::Nodes(set_a())).unwrap(),
        b"PGE+PC9hPg==".to_vec()
    );
}

#[test]
fn canonicalization_of_bytes_is_refused() {
    assert_eq!(
        TransformStage::Canonicalize.apply(StageInput::Bytes(b"<a/>".to_vec())),
        Err(Error::ParseError)
    );
    let mut pipeline = Pipeline::new();
    pipeline.append(TransformStage::Canonicalize);
    pipeline.append(TransformStage::Canonicalize);
    assert_eq!(pipeline.execute(set_a()), Err(Error::ParseError));
}

#[test]
fn the_standard_pipeline() {
    let (doc, a) = element_a();
    let pipeline = Pipeline::standard();
    assert_eq!(pipeline.stages.len(), 3);
    assert!(pipeline.is_supported());
    assert_eq!(pipeline.execute(set_a()).unwrap(), b"9hvH4qztnIYgYfJDRLnEMPJdoaY=".to_vec());
    assert_eq!(pipeline.run(&doc, a).unwrap(), "9hvH4qztnIYgYfJDRLnEMPJdoaY=");
}

#[test]
fn a_pipeline_built_by_hand() {
    let (doc, a) = element_a();
    let mut pipeline = Pipeline::new();
    pipeline.append(TransformStage::Canonicalize);
    pipeline.append(sha1_stage());
    pipeline.append(TransformStage::Base64Encode);
    assert_eq!(pipeline.run(&doc, a).unwrap(), "9hvH4qztnIYgYfJDRLnEMPJdoaY=");
    // The stages can be put in another order.
    let mut twice = Pipeline::new();
    twice.append(TransformStage::Base64Encode);
    twice.append(TransformStage::Base64Encode);
    assert_eq!(twice.run(&doc, a).unwrap(), "UEdFK1BDOWhQZz09");
    let mut hash_of_text = Pipeline::new();
    hash_of_text.append(TransformStage::Base64Encode);
    hash_of_text.append(sha1_stage());
    hash_of_text.append(TransformStage::Base64Encode);
    assert_eq!(hash_of_text.run(&doc, a).unwrap(), "kJttDn7lOuY5NDYtI+c1YYaDn04=");
}

#[test]
fn a_pipeline_without_stages_gives_the_canonical_form() {
    let (doc, a) = element_a();
    let pipeline = Pipeline::new();
    assert_eq!(pipeline.execute(set_a()).unwrap(), b"<a></a>".to_vec());
    assert_eq!(pipeline.run(&doc, a).unwrap(), "<a></a>");
}

#[test]
fn bytes_that_are_no_text_are_an_encoding_error() {
    let (doc, a) = element_a();
    let mut pipeline = Pipeline::new();
    pipeline.append(TransformStage::Canonicalize);
    pipeline.append(sha1_stage());
    assert_eq!(pipeline.execute(set_a()).unwrap(), SHA1_OF_A.to_vec());
    assert_eq!(pipeline.run(&doc, a), Err(Error::EncodingError));
}

#[test]
fn an_unsupported_algorithm_is_refused_before_anything_is_done() {
    let (doc, a) = element_a();
    let bad = TransformStage::Digest("http://www.w3.org/2001/04/xmlenc#sha256".to_string());
    assert!(!bad.is_supported());
    assert_eq!(bad.apply(StageInput::Bytes(b"abc".to_vec())), Err(Error::UnknownAlgorithm));
    let mut pipeline = Pipeline::new();
    pipeline.append(TransformStage::Canonicalize);
    pipeline.append(bad.clone());
    pipeline.append(TransformStage::Base64Encode);
    assert!(!pipeline.is_supported());
    assert_eq!(pipeline.execute(set_a()), Err(Error::UnknownAlgorithm));
    assert_eq!(pipeline.run(&doc, a), Err(Error::UnknownAlgorithm));
    // Whatever else is wrong, the algorithm is named first.
    assert_eq!(pipeline.run(&doc, 99), Err(Error::UnknownAlgorithm));
    let broken = NodeSet {
        entries: vec![NodeSetEntry {
            kind: EntryKind::Attribute,
            node: 0,
            depth: 0,
            prefix: Vec::new(),
            local_name: b"x".to_vec(),
            namespace_uri: Vec::new(),
            value: Vec::new(),
        }],
    };
    assert_eq!(pipeline.execute(broken), Err(Error::UnknownAlgorithm));
    assert_eq!(bad.apply(StageInput::Nodes(set_a())), Err(Error::UnknownAlgorithm));
}

#[test]
fn a_failure_of_an_earlier_stage_is_handed_on() {
    let broken = || NodeSet {
        entries: vec![NodeSetEntry {
            kind: EntryKind::Namespace,
            node: 0,
            depth: 0,
            prefix: Vec::new(),
            local_name: b"p".to_vec(),
            namespace_uri: Vec::new(),
            value: b"urn:p".to_vec(),
        }],
    };
    assert_eq!(Pipeline::standard().execute(broken()), Err(Error::ParseError));
    assert_eq!(Pipeline::new().execute(broken()), Err(Error::ParseError));
    let (doc, _) = element_a();
    assert_eq!(Pipeline::standard().run(&doc, 1), Err(Error::InvalidXml));
}
