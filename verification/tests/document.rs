use hash_lyzer::bytes::{bytes_at_most, bytes_equal};
use hash_lyzer::canonical::canonicalize;
use hash_lyzer::document::{Attribute, Document, Node, NodeKind};
use hash_lyzer::error::Error;
use hash_lyzer::nodeset::select;
use hash_lyzer::order::{attribute_at_most, sorted_attributes};
use hash_lyzer::text::is_valid_utf8;

#[test]
fn nodes_are_numbered_in_the_order_they_are_added() {
    let mut doc = Document::new();
    assert_eq!(doc.len(), 0);
    assert_eq!(doc.root_element(), None);
    let comment = doc.add_comment(None, b"prolog").unwrap();
    let root = doc.add_element(None, b"p", b"root", b"urn:p").unwrap();
    let child = doc.add_element(Some(root), b"", b"child", b"").unwrap();
    let text = doc.add_text(Some(child), b"t").unwrap();
    assert_eq!((comment, root, child, text), (0, 1, 2, 3));
    assert_eq!(doc.len(), 4);
    assert_eq!(doc.root_element(), Some(1));
    assert_eq!(doc.node(root).unwrap().kind, NodeKind::Element);
    assert_eq!(doc.node(root).unwrap().prefix, b"p".to_vec());
    assert_eq!(doc.node(root).unwrap().local_name, b"root".to_vec());
    assert_eq!(doc.node(root).unwrap().namespace_uri, b"urn:p".to_vec());
    assert_eq!(doc.node(root).unwrap().parent, None);
    assert_eq!(doc.node(root).unwrap().children, vec![child]);
    assert_eq!(doc.node(child).unwrap().parent, Some(root));
    assert_eq!(doc.node(child).unwrap().children, vec![text]);
    assert_eq!(doc.node(text).unwrap().kind, NodeKind::Text);
    assert_eq!(doc.node(text).unwrap().value, b"t".to_vec());
    assert_eq!(doc.node(text).unwrap().parent, Some(child));
    assert!(doc.node(4).is_none());
    assert!(Document::new().node(0).is_none());
}

#[test]
fn only_an_element_takes_children() {
    let mut doc = Document::new();
    let root = doc.add_element(None, b"", b"root", b"").unwrap();
    let text = doc.add_text(Some(root), b"t").unwrap();
    assert_eq!(doc.add_element(Some(text), b"", b"a", b""), Err(Error::InvalidXml));
    assert_eq!(doc.add_text(Some(text), b"u"), Err(Error::InvalidXml));
    assert_eq!(doc.add_comment(Some(7), b"c"), Err(Error::InvalidXml));
    assert_eq!(doc.add_element(Some(2), b"", b"a", b""), Err(Error::InvalidXml));
    assert_eq!(doc.add_content(Some(root), NodeKind::Element, b""), Err(Error::InvalidXml));
    assert_eq!(doc.insert_comment(text, 0, b"c"), Err(Error::InvalidXml));
    assert_eq!(doc.insert_comment(root, 2, b"c"), Err(Error::InvalidXml));
    assert_eq!(doc.declare_namespace(text, b"p", b"urn:p"), Err(Error::InvalidXml));
    assert_eq!(doc.declare_namespace(9, b"p", b"urn:p"), Err(Error::InvalidXml));
    assert_eq!(doc.add_attribute(text, b"", b"k", b"", b"v"), Err(Error::InvalidXml));
    assert_eq!(doc.add_attribute(9, b"", b"k", b"", b"v"), Err(Error::InvalidXml));
    // Nothing was added by the refused calls.
    assert_eq!(doc.len(), 2);
    assert_eq!(doc.node(root).unwrap().children, vec![text]);
    assert_eq!(doc.node(root).unwrap().attributes.len(), 0);
    assert_eq!(doc.node(root).unwrap().namespaces.len(), 0);
}

#[test]
fn a_comment_is_put_at_its_place() {
    let mut doc = Document::new();
    let root = doc.add_element(None, b"", b"root", b"").unwrap();
    let a = doc.add_element(Some(root), b"", b"a", b"").unwrap();
    let b = doc.add_element(Some(root), b"", b"b", b"").unwrap();
    let middle = doc.insert_comment(root, 1, b"m").unwrap();
    let first = doc.insert_comment(root, 0, b"f").unwrap();
    let last = doc.insert_comment(root, 4, b"l").unwrap();
    assert_eq!(doc.node(root).unwrap().children, vec![first, a, middle, b, last]);
    assert_eq!(doc.node(middle).unwrap().kind, NodeKind::Comment);
    assert_eq!(doc.node(middle).unwrap().value, b"m".to_vec());
    assert_eq!(doc.node(middle).unwrap().parent, Some(root));
}

#[test]
fn attributes_and_namespaces_are_kept_as_given() {
    let mut doc = Document::new();
    let root = doc.add_element(None, b"", b"root", b"").unwrap();
    doc.declare_namespace(root, b"p", b"urn:p").unwrap();
    doc.declare_namespace(root, b"", b"urn:d").unwrap();
    doc.add_attribute(root, b"p", b"k", b"urn:p", b"v").unwrap();
    let node = doc.node(root).unwrap();
    assert_eq!(node.namespaces.len(), 2);
    assert_eq!(node.namespaces[0].prefix, b"p".to_vec());
    assert_eq!(node.namespaces[0].uri, b"urn:p".to_vec());
    assert_eq!(node.namespaces[1].prefix, b"".to_vec());
    assert_eq!(node.attributes.len(), 1);
    assert_eq!(node.attributes[0].prefix, b"p".to_vec());
    assert_eq!(node.attributes[0].local_name, b"k".to_vec());
    assert_eq!(node.attributes[0].namespace_uri, b"urn:p".to_vec());
    assert_eq!(node.attributes[0].value, b"v".to_vec());
}

#[test]
fn byte_strings_are_ordered_lexicographically() {
    assert!(bytes_at_most(b"", b""));
    assert!(bytes_at_most(b"", b"a"));
    assert!(!bytes_at_most(b"a", b""));
    assert!(bytes_at_most(b"a", b"a"));
    assert!(bytes_at_most(b"a", b"ab"));
    assert!(!bytes_at_most(b"ab", b"a"));
    assert!(bytes_at_most(b"ab", b"b"));
    assert!(!bytes_at_most(b"b", b"ab"));
    assert!(bytes_at_most(b"Z", b"a"));
    assert!(bytes_at_most(&[0x7f], &[0x80]));
    assert!(!bytes_at_most(&[0xff], &[0x00, 0xff]));
    assert!(bytes_equal(b"abc", b"abc"));
    assert!(!bytes_equal(b"abc", b"abd"));
    assert!(!bytes_equal(b"abc", b"ab"));
    assert!(bytes_equal(b"", b""));
}

fn attribute(prefix: &str, local_name: &str, namespace_uri: &str, value: &str) -> Attribute {
    Attribute {
        prefix: prefix.as_bytes().to_vec(),
        local_name: local_name.as_bytes().to_vec(),
        namespace_uri: namespace_uri.as_bytes().to_vec(),
        value: value.as_bytes().to_vec(),
    }
}

#[test]
fn attributes_are_ordered_by_namespace_first() {
    let plain = attribute("", "z", "", "1");
    let qualified = attribute("a", "a", "urn:a", "1");
    assert!(attribute_at_most(&plain, &qualified));
    assert!(!attribute_at_most(&qualified, &plain));
    assert!(attribute_at_most(&plain, &plain));
    // The prefix counts only where namespace and local name are the same.
    let by_uri = attribute("z", "k", "urn:a", "1");
    let by_prefix = attribute("a", "k", "urn:b", "1");
    assert!(attribute_at_most(&by_uri, &by_prefix));
    assert!(!attribute_at_most(&by_prefix, &by_uri));
}

#[test]
fn an_attribute_without_a_prefix_comes_first() {
    // Also before an attribute with a prefix that names no namespace, and
    // whatever namespace is given for the attribute without a prefix.
    let plain = attribute("", "b", "", "1");
    let prefixed = attribute("p", "a", "", "1");
    assert!(attribute_at_most(&plain, &prefixed));
    assert!(!attribute_at_most(&prefixed, &plain));
    let odd = attribute("", "z", "urn:z", "1");
    let qualified = attribute("a", "a", "urn:a", "1");
    assert!(attribute_at_most(&odd, &qualified));
    assert!(!attribute_at_most(&qualified, &odd));
    assert!(attribute_at_most(&plain, &odd));
    assert!(!attribute_at_most(&odd, &plain));

    let mut doc = Document::new();
    let e = doc.add_element(None, b"", b"e", b"").unwrap();
    doc.add_attribute(e, b"p", b"a", b"", b"1").unwrap();
    doc.add_attribute(e, b"", b"b", b"", b"2").unwrap();
    let set = select(&doc, e, false, false).unwrap();
    assert_eq!(
        String::from_utf8(canonicalize(&set).unwrap()).unwrap(),
        "<e b=\"2\" p:a=\"1\"></e>"
    );
}

#[test]
fn sorting_gives_one_order_for_every_arrangement() {
    let items = || {
        vec![
            attribute("b", "k", "urn:b", "4"),
            attribute("", "m", "", "2"),
            attribute("a", "z", "urn:a", "3"),
            attribute("", "a", "", "1"),
            attribute("b", "k2", "urn:b", "5"),
        ]
    };
    let values = |sorted: Vec<Attribute>| -> Vec<String> {
        sorted.iter().map(|a| String::from_utf8(a.value.clone()).unwrap()).collect()
    };
    let expected = vec!["1", "2", "3", "4", "5"];
    assert_eq!(values(sorted_attributes(&items())), expected);
    let mut reversed = items();
    reversed.reverse();
    assert_eq!(values(sorted_attributes(&reversed)), expected);
    let mut rotated = items();
    rotated.rotate_left(2);
    assert_eq!(values(sorted_attributes(&rotated)), expected);
    assert_eq!(sorted_attributes(&Vec::new()).len(), 0);
}

#[test]
fn well_formed_utf8_is_told_apart() {
    assert!(is_valid_utf8(b""));
    assert!(is_valid_utf8(b"plain"));
    assert!(is_valid_utf8("\u{e9}\u{20ac}\u{1f600}".as_bytes()));
    assert!(!is_valid_utf8(&[0x80]));
    assert!(!is_valid_utf8(&[0xc3]));
    assert!(!is_valid_utf8(&[0xc0, 0xaf]));
    assert!(!is_valid_utf8(&[0xed, 0xa0, 0x80]));
    assert!(!is_valid_utf8(&[0xf4, 0x90, 0x80, 0x80]));
    assert!(!is_valid_utf8(&[b'a', 0xff, b'b']));
}

fn node(kind: NodeKind, name: &str, parent: Option<usize>, children: Vec<usize>) -> Node {
    Node {
        kind,
        prefix: Vec::new(),
        local_name: name.as_bytes().to_vec(),
        namespace_uri: Vec::new(),
        value: Vec::new(),
        parent,
        children,
        attributes: Vec::new(),
        namespaces: Vec::new(),
    }
}

#[test]
fn a_list_of_nodes_that_hang_together_is_a_document() {
    let nodes = vec![
        node(NodeKind::Element, "a", None, vec![3, 1]),
        node(NodeKind::Element, "b", Some(0), vec![2]),
        node(NodeKind::Text, "", Some(1), vec![]),
        node(NodeKind::Comment, "", Some(0), vec![]),
        node(NodeKind::Element, "c", None, vec![]),
    ];
    let doc = Document::from_nodes(nodes).unwrap();
    assert_eq!(doc.len(), 5);
    assert_eq!(doc.root_element(), Some(0));
    assert_eq!(doc.node(0).unwrap().children, vec![3, 1]);
    let set = select(&doc, 0, true, false).unwrap();
    assert_eq!(String::from_utf8(canonicalize(&set).unwrap()).unwrap(), "<a><!----><b></b></a>");
    assert_eq!(Document::from_nodes(Vec::new()).unwrap().len(), 0);
}

#[test]
fn nodes_that_do_not_hang_together_are_invalid_xml() {
    let refused = |nodes: Vec<Node>| Document::from_nodes(nodes).err() == Some(Error::InvalidXml);
    // A child that the list does not hold.
    assert!(refused(vec![node(NodeKind::Element, "a", None, vec![1])]));
    // A parent that the list does not hold.
    assert!(refused(vec![node(NodeKind::Element, "a", Some(1), vec![])]));
    // A child before its parent.
    assert!(refused(vec![
        node(NodeKind::Text, "", Some(1), vec![]),
        node(NodeKind::Element, "a", None, vec![0]),
    ]));
    // A node that is its own child.
    assert!(refused(vec![node(NodeKind::Element, "a", Some(0), vec![0])]));
    // A child that names another parent, or none.
    assert!(refused(vec![
        node(NodeKind::Element, "a", None, vec![2]),
        node(NodeKind::Element, "b", Some(0), vec![]),
        node(NodeKind::Text, "", Some(1), vec![]),
    ]));
    assert!(refused(vec![
        node(NodeKind::Element, "a", None, vec![1]),
        node(NodeKind::Text, "", None, vec![]),
    ]));
    // A child that is listed twice.
    assert!(refused(vec![
        node(NodeKind::Element, "a", None, vec![1, 1]),
        node(NodeKind::Text, "", Some(0), vec![]),
    ]));
    // A parent that is no element.
    assert!(refused(vec![
        node(NodeKind::Text, "", None, vec![]),
        node(NodeKind::Text, "", Some(0), vec![]),
    ]));
    // Text that owns something.
    let mut text = node(NodeKind::Text, "", None, vec![]);
    text.attributes.push(Attribute {
        prefix: Vec::new(),
        local_name: b"k".to_vec(),
        namespace_uri: Vec::new(),
        value: Vec::new(),
    });
    assert!(refused(vec![text]));
    // A parent that does not list the node.
    assert!(refused(vec![
        node(NodeKind::Element, "a", None, vec![]),
        node(NodeKind::Text, "", Some(0), vec![]),
    ]));
}
