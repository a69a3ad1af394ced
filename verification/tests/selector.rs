use hash_lyzer::canonical::canonicalize;
use hash_lyzer::document::{Document, NodeKind};
use hash_lyzer::error::Error;
use hash_lyzer::nodeset::{in_scope_namespaces, select, EntryKind, NodeSetEntry};

fn summary(e: &NodeSetEntry) -> (EntryKind, usize, usize, String, String, String, String) {
    (
        e.kind,
        e.node,
        e.depth,
        String::from_utf8(e.prefix.clone()).unwrap(),
        String::from_utf8(e.local_name.clone()).unwrap(),
        String::from_utf8(e.namespace_uri.clone()).unwrap(),
        String::from_utf8(e.value.clone()).unwrap(),
    )
}

fn row(
    kind: EntryKind,
    node: usize,
    depth: usize,
    prefix: &str,
    local_name: &str,
    namespace_uri: &str,
    value: &str,
) -> (EntryKind, usize, usize, String, String, String, String) {
    (
        kind,
        node,
        depth,
        prefix.to_string(),
        local_name.to_string(),
        namespace_uri.to_string(),
        value.to_string(),
    )
}

/// `<r xmlns:p="urn:p" xmlns="urn:d"><p:a k="v" p:j="w">t<!--c--><b xmlns=""/>`
/// `<![CDATA[d]]></p:a></r>`
fn sample() -> Document {
    let mut doc = Document::new();
    let r = doc.add_element(None, b"", b"r", b"urn:d").unwrap();
    doc.declare_namespace(r, b"p", b"urn:p").unwrap();
    doc.declare_namespace(r, b"", b"urn:d").unwrap();
    let a = doc.add_element(Some(r), b"p", b"a", b"urn:p").unwrap();
    doc.add_attribute(a, b"p", b"j", b"urn:p", b"w").unwrap();
    doc.add_attribute(a, b"", b"k", b"", b"v").unwrap();
    doc.add_text(Some(a), b"t").unwrap();
    doc.add_comment(Some(a), b"c").unwrap();
    let b = doc.add_element(Some(a), b"", b"b", b"").unwrap();
    doc.declare_namespace(b, b"", b"").unwrap();
    doc.add_content(Some(a), NodeKind::CData, b"d").unwrap();
    doc
}

#[test]
fn subtree_is_selected_in_document_order() {
    let doc = sample();
    let set = select(&doc, 1, false, false).unwrap();
    let rows: Vec<_> = set.entries.iter().map(summary).collect();
    assert_eq!(
        rows,
        vec![
            row(EntryKind::ElementOpen, 1, 0, "p", "a", "urn:p", ""),
            row(EntryKind::Namespace, 1, 0, "", "", "", "urn:d"),
            row(EntryKind::Namespace, 1, 0, "", "p", "", "urn:p"),
            row(EntryKind::Attribute, 1, 0, "", "k", "", "v"),
            row(EntryKind::Attribute, 1, 0, "p", "j", "urn:p", "w"),
            row(EntryKind::Text, 2, 1, "", "", "", "t"),
            row(EntryKind::ElementOpen, 4, 1, "", "b", "", ""),
            row(EntryKind::Namespace, 4, 1, "", "p", "", "urn:p"),
            row(EntryKind::Text, 5, 1, "", "", "", "d"),
        ]
    );
}

#[test]
fn comments_are_selected_on_request() {
    let doc = sample();
    let without = select(&doc, 1, false, false).unwrap();
    let with = select(&doc, 1, true, false).unwrap();
    assert_eq!(without.entries.len(), 9);
    assert_eq!(with.entries.len(), 10);
    assert_eq!(summary(&with.entries[6]), row(EntryKind::Comment, 3, 1, "", "", "", "c"));
    assert!(without.entries.iter().all(|e| e.kind != EntryKind::Comment));
    // A comment as context node gives an empty set unless comments are asked for.
    assert_eq!(select(&doc, 3, false, false).unwrap().entries.len(), 0);
    assert_eq!(select(&doc, 3, true, false).unwrap().entries.len(), 1);
}

#[test]
fn context_node_only_stops_at_the_context_node() {
    let doc = sample();
    let set = select(&doc, 1, false, true).unwrap();
    let rows: Vec<_> = set.entries.iter().map(summary).collect();
    assert_eq!(
        rows,
        vec![
            row(EntryKind::ElementOpen, 1, 0, "p", "a", "urn:p", ""),
            row(EntryKind::Namespace, 1, 0, "", "", "", "urn:d"),
            row(EntryKind::Namespace, 1, 0, "", "p", "", "urn:p"),
            row(EntryKind::Attribute, 1, 0, "", "k", "", "v"),
            row(EntryKind::Attribute, 1, 0, "p", "j", "urn:p", "w"),
        ]
    );
    assert_eq!(
        String::from_utf8(canonicalize(&set).unwrap()).unwrap(),
        "<p:a xmlns=\"urn:d\" xmlns:p=\"urn:p\" k=\"v\" p:j=\"w\"></p:a>"
    );
    let text = select(&doc, 2, false, true).unwrap();
    assert_eq!(text.entries.len(), 1);
    assert_eq!(summary(&text.entries[0]), row(EntryKind::Text, 2, 0, "", "", "", "t"));
}

#[test]
fn depth_counts_from_the_context_node() {
    let mut doc = Document::new();
    let a = doc.add_element(None, b"", b"a", b"").unwrap();
    let b = doc.add_element(Some(a), b"", b"b", b"").unwrap();
    let c = doc.add_element(Some(b), b"", b"c", b"").unwrap();
    doc.add_text(Some(c), b"t").unwrap();
    let depths = |context: usize| -> Vec<usize> {
        select(&doc, context, false, false).unwrap().entries.iter().map(|e| e.depth).collect()
    };
    assert_eq!(depths(a), vec![0, 1, 2, 3]);
    assert_eq!(depths(b), vec![0, 1, 2]);
    assert_eq!(depths(c), vec![0, 1]);
}

#[test]
fn context_outside_the_document_is_refused() {
    let doc = sample();
    assert_eq!(select(&doc, 6, false, false).err(), Some(Error::InvalidXml));
    assert_eq!(select(&doc, 6, true, true).err(), Some(Error::InvalidXml));
    assert_eq!(select(&Document::new(), 0, false, false).err(), Some(Error::InvalidXml));
}

#[test]
fn unsupported_nodes_are_refused() {
    let mut doc = sample();
    let pi = doc.add_content(Some(4), NodeKind::Unsupported, b"x").unwrap();
    assert_eq!(select(&doc, 0, false, false).err(), Some(Error::SelectorError));
    assert_eq!(select(&doc, 1, true, false).err(), Some(Error::SelectorError));
    assert_eq!(select(&doc, 4, false, false).err(), Some(Error::SelectorError));
    assert_eq!(select(&doc, pi, false, false).err(), Some(Error::SelectorError));
    assert_eq!(select(&doc, pi, false, true).err(), Some(Error::SelectorError));
    // The walk does not reach it from here.
    assert!(select(&doc, 2, false, false).is_ok());
    assert!(select(&doc, 1, false, true).is_ok());
}

#[test]
fn namespaces_in_scope_follow_the_nearest_declaration() {
    let mut doc = Document::new();
    let r = doc.add_element(None, b"", b"r", b"").unwrap();
    doc.declare_namespace(r, b"p", b"urn:p").unwrap();
    doc.declare_namespace(r, b"q", b"urn:q").unwrap();
    doc.declare_namespace(r, b"", b"urn:d").unwrap();
    let a = doc.add_element(Some(r), b"", b"a", b"").unwrap();
    doc.declare_namespace(a, b"p", b"urn:inner").unwrap();
    doc.declare_namespace(a, b"", b"").unwrap();
    let b = doc.add_element(Some(a), b"", b"b", b"").unwrap();
    doc.declare_namespace(b, b"n", b"urn:n").unwrap();
    let t = doc.add_text(Some(b), b"t").unwrap();

    let pairs = |id: usize| -> Vec<(String, String)> {
        in_scope_namespaces(&doc, id)
            .iter()
            .map(|a| {
                (
                    String::from_utf8(a.local_name.clone()).unwrap(),
                    String::from_utf8(a.value.clone()).unwrap(),
                )
            })
            .collect()
    };
    let pair = |p: &str, u: &str| (p.to_string(), u.to_string());
    assert_eq!(pairs(r), vec![pair("", "urn:d"), pair("p", "urn:p"), pair("q", "urn:q")]);
    assert_eq!(pairs(a), vec![pair("p", "urn:inner"), pair("q", "urn:q")]);
    assert_eq!(pairs(b), vec![pair("n", "urn:n"), pair("p", "urn:inner"), pair("q", "urn:q")]);
    assert_eq!(pairs(t), vec![pair("n", "urn:n"), pair("p", "urn:inner"), pair("q", "urn:q")]);
    assert_eq!(pairs(doc.len()), Vec::new());
}
