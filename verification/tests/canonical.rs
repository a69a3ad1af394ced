use hash_lyzer::canonical::canonicalize;
use hash_lyzer::document::{Document, NodeKind};
use hash_lyzer::error::Error;
use hash_lyzer::nodeset::{select, EntryKind, NodeSet, NodeSetEntry};

fn canonical_text(doc: &Document, context: usize, comments: bool) -> String {
    let set = select(doc, context, comments, false).unwrap();
    String::from_utf8(canonicalize(&set).unwrap()).unwrap()
}

fn entry(
    kind: EntryKind,
    node: usize,
    depth: usize,
    local_name: &[u8],
    value: &[u8],
) -> NodeSetEntry {
    NodeSetEntry {
        kind,
        node,
        depth,
        prefix: Vec::new(),
        local_name: local_name.to_vec(),
        namespace_uri: Vec::new(),
        value: value.to_vec(),
    }
}

#[test]
fn an_empty_element_has_a_start_and_an_end_tag() {
    let mut doc = Document::new();
    let a = doc.add_element(None, b"", b"a", b"").unwrap();
    assert_eq!(canonical_text(&doc, a, false), "<a></a>");
    let mut doc = Document::new();
    let a = doc.add_element(None, b"p", b"a", b"urn:p").unwrap();
    doc.declare_namespace(a, b"p", b"urn:p").unwrap();
    assert_eq!(canonical_text(&doc, a, false), "<p:a xmlns:p=\"urn:p\"></p:a>");
}

#[test]
fn an_empty_node_set_gives_no_bytes() {
    let set = NodeSet { entries: Vec::new() };
    assert_eq!(canonicalize(&set), Ok(Vec::new()));
}

#[test]
fn text_is_escaped() {
    let mut doc = Document::new();
    let a = doc.add_element(None, b"", b"a", b"").unwrap();
    doc.add_text(Some(a), b"1 < 2 && 3 > 2 \"q\" 'r'\tt\nn").unwrap();
    assert_eq!(
        canonical_text(&doc, a, false),
        "<a>1 &lt; 2 &amp;&amp; 3 &gt; 2 \"q\" 'r'\tt\nn</a>"
    );
}

#[test]
fn carriage_return_in_text_becomes_line_feed() {
    let mut doc = Document::new();
    let a = doc.add_element(None, b"", b"a", b"").unwrap();
    doc.add_text(Some(a), b"one\rtwo\r\nthree").unwrap();
    assert_eq!(canonical_text(&doc, a, false), "<a>one\ntwo\n\nthree</a>");
}

#[test]
fn attribute_values_are_escaped() {
    let mut doc = Document::new();
    let a = doc.add_element(None, b"", b"a", b"").unwrap();
    doc.add_attribute(a, b"", b"v", b"", b"<&\">'\t\n\r x  y").unwrap();
    assert_eq!(
        canonical_text(&doc, a, false),
        "<a v=\"&lt;&amp;&quot;>'&#x9;&#xA;&#xD; x  y\"></a>"
    );
}

#[test]
fn namespace_values_are_escaped() {
    let mut doc = Document::new();
    let a = doc.add_element(None, b"", b"a", b"").unwrap();
    doc.declare_namespace(a, b"p", b"urn:a&b").unwrap();
    assert_eq!(canonical_text(&doc, a, false), "<a xmlns:p=\"urn:a&amp;b\"></a>");
}

#[test]
fn cdata_is_written_as_escaped_text() {
    let mut doc = Document::new();
    let a = doc.add_element(None, b"", b"a", b"").unwrap();
    doc.add_content(Some(a), NodeKind::CData, b"x < y & z").unwrap();
    doc.add_text(Some(a), b"!").unwrap();
    assert_eq!(canonical_text(&doc, a, false), "<a>x &lt; y &amp; z!</a>");
}

#[test]
fn comments_are_left_out_unless_asked_for() {
    let mut doc = Document::new();
    let a = doc.add_element(None, b"", b"a", b"").unwrap();
    doc.add_comment(Some(a), b" first ").unwrap();
    doc.add_text(Some(a), b"t").unwrap();
    let b = doc.add_element(Some(a), b"", b"b", b"").unwrap();
    doc.add_comment(Some(b), b"in <b> & co").unwrap();
    assert_eq!(canonical_text(&doc, a, false), "<a>t<b></b></a>");
    assert_eq!(
        canonical_text(&doc, a, true),
        "<a><!-- first -->t<b><!--in <b> & co--></b></a>"
    );
}

#[test]
fn attributes_are_sorted_by_namespace_then_local_name() {
    let mut doc = Document::new();
    let e = doc.add_element(None, b"", b"e", b"").unwrap();
    doc.declare_namespace(e, b"b", b"http://www.ietf.org").unwrap();
    doc.declare_namespace(e, b"a", b"http://www.w3.org").unwrap();
    doc.add_attribute(e, b"a", b"attr2", b"http://www.w3.org", b"sorted").unwrap();
    doc.add_attribute(e, b"b", b"attr", b"http://www.ietf.org", b"sorted").unwrap();
    doc.add_attribute(e, b"", b"attr2", b"", b"all").unwrap();
    doc.add_attribute(e, b"a", b"attr", b"http://www.w3.org", b"out").unwrap();
    doc.add_attribute(e, b"", b"attr", b"", b"I'm").unwrap();
    assert_eq!(
        canonical_text(&doc, e, false),
        "<e xmlns:a=\"http://www.w3.org\" xmlns:b=\"http://www.ietf.org\" attr=\"I'm\" \
attr2=\"all\" b:attr=\"sorted\" a:attr=\"out\" a:attr2=\"sorted\"></e>"
    );
}

#[test]
fn the_default_namespace_comes_before_prefixed_ones() {
    let mut doc = Document::new();
    let e = doc.add_element(None, b"", b"e", b"urn:d").unwrap();
    doc.declare_namespace(e, b"b", b"urn:b").unwrap();
    doc.declare_namespace(e, b"", b"urn:d").unwrap();
    doc.declare_namespace(e, b"a", b"urn:a").unwrap();
    doc.declare_namespace(e, b"B", b"urn:upper").unwrap();
    assert_eq!(
        canonical_text(&doc, e, false),
        "<e xmlns=\"urn:d\" xmlns:B=\"urn:upper\" xmlns:a=\"urn:a\" xmlns:b=\"urn:b\"></e>"
    );
}

#[test]
fn a_namespace_is_declared_once_on_the_way_down() {
    let mut doc = Document::new();
    let root = doc.add_element(None, b"", b"root", b"").unwrap();
    doc.declare_namespace(root, b"p", b"urn:p").unwrap();
    let a = doc.add_element(Some(root), b"p", b"a", b"urn:p").unwrap();
    let b = doc.add_element(Some(a), b"p", b"b", b"urn:p").unwrap();
    doc.declare_namespace(b, b"p", b"urn:p").unwrap();
    doc.declare_namespace(b, b"q", b"urn:q").unwrap();
    let c = doc.add_element(Some(b), b"q", b"c", b"urn:q").unwrap();
    doc.declare_namespace(c, b"p", b"urn:other").unwrap();
    doc.add_element(Some(c), b"p", b"d", b"urn:other").unwrap();
    doc.add_element(Some(a), b"", b"e", b"").unwrap();
    assert_eq!(
        canonical_text(&doc, root, false),
        "<root xmlns:p=\"urn:p\"><p:a><p:b xmlns:q=\"urn:q\"><q:c xmlns:p=\"urn:other\">\
<p:d></p:d></q:c></p:b><e></e></p:a></root>"
    );
    // Below the root, the inherited declaration is written on the context node.
    assert_eq!(
        canonical_text(&doc, c, false),
        "<q:c xmlns:p=\"urn:other\" xmlns:q=\"urn:q\"><p:d></p:d></q:c>"
    );
    assert_eq!(canonical_text(&doc, a, false).starts_with("<p:a xmlns:p=\"urn:p\">"), true);
}

#[test]
fn the_default_namespace_is_taken_out_of_scope() {
    let mut doc = Document::new();
    let root = doc.add_element(None, b"", b"root", b"urn:d").unwrap();
    doc.declare_namespace(root, b"", b"urn:d").unwrap();
    let a = doc.add_element(Some(root), b"", b"a", b"").unwrap();
    doc.declare_namespace(a, b"", b"").unwrap();
    doc.add_element(Some(a), b"", b"b", b"").unwrap();
    let c = doc.add_element(Some(a), b"", b"c", b"urn:d").unwrap();
    doc.declare_namespace(c, b"", b"urn:d").unwrap();
    assert_eq!(
        canonical_text(&doc, root, false),
        "<root xmlns=\"urn:d\"><a xmlns=\"\"><b></b><c xmlns=\"urn:d\"></c></a></root>"
    );
    // As a context node, the element has no enclosing element to undo.
    assert_eq!(canonical_text(&doc, a, false), "<a><b></b><c xmlns=\"urn:d\"></c></a>");
}

#[test]
fn open_elements_are_ended_innermost_first() {
    let mut doc = Document::new();
    let a = doc.add_element(None, b"", b"a", b"").unwrap();
    let b = doc.add_element(Some(a), b"", b"b", b"").unwrap();
    let c = doc.add_element(Some(b), b"", b"c", b"").unwrap();
    doc.add_text(Some(c), b"deep").unwrap();
    doc.add_text(Some(a), b"tail").unwrap();
    let d = doc.add_element(Some(a), b"", b"d", b"").unwrap();
    doc.add_element(Some(d), b"", b"e", b"").unwrap();
    assert_eq!(
        canonical_text(&doc, a, false),
        "<a><b><c>deep</c></b>tail<d><e></e></d></a>"
    );
}

#[test]
fn a_text_node_as_context() {
    let mut doc = Document::new();
    let a = doc.add_element(None, b"", b"a", b"").unwrap();
    let t = doc.add_text(Some(a), b"a & b").unwrap();
    assert_eq!(canonical_text(&doc, t, false), "a &amp; b");
}

#[test]
fn hand_made_node_set_is_serialized_in_its_order() {
    let set = NodeSet {
        entries: vec![
            entry(EntryKind::ElementOpen, 0, 0, b"a", b""),
            entry(EntryKind::Namespace, 0, 0, b"z", b"urn:z"),
            entry(EntryKind::Namespace, 0, 0, b"", b"urn:d"),
            entry(EntryKind::Attribute, 0, 0, b"y", b"2"),
            entry(EntryKind::Attribute, 0, 0, b"x", b"1"),
            entry(EntryKind::Text, 1, 1, b"", b"t"),
            entry(EntryKind::ElementOpen, 2, 1, b"b", b""),
            entry(EntryKind::Namespace, 2, 1, b"z", b"urn:z"),
            entry(EntryKind::Comment, 3, 0, b"", b"c"),
        ],
    };
    assert_eq!(
        String::from_utf8(canonicalize(&set).unwrap()).unwrap(),
        "<a xmlns:z=\"urn:z\" xmlns=\"urn:d\" y=\"2\" x=\"1\">t<b xmlns=\"\"></b></a><!--c-->"
    );
}

#[test]
fn an_attribute_without_its_element_is_a_parse_error() {
    let set = NodeSet { entries: vec![entry(EntryKind::Attribute, 0, 0, b"x", b"1")] };
    assert_eq!(canonicalize(&set), Err(Error::ParseError));
    let set = NodeSet { entries: vec![entry(EntryKind::Namespace, 0, 0, b"p", b"urn:p")] };
    assert_eq!(canonicalize(&set), Err(Error::ParseError));
    // Owned by another element than the one that is open.
    let set = NodeSet {
        entries: vec![
            entry(EntryKind::ElementOpen, 0, 0, b"a", b""),
            entry(EntryKind::Attribute, 1, 0, b"x", b"1"),
        ],
    };
    assert_eq!(canonicalize(&set), Err(Error::ParseError));
    // At another depth than its element.
    let set = NodeSet {
        entries: vec![
            entry(EntryKind::ElementOpen, 0, 0, b"a", b""),
            entry(EntryKind::Attribute, 0, 1, b"x", b"1"),
        ],
    };
    assert_eq!(canonicalize(&set), Err(Error::ParseError));
    // Behind the content of its element.
    let set = NodeSet {
        entries: vec![
            entry(EntryKind::ElementOpen, 0, 0, b"a", b""),
            entry(EntryKind::Text, 1, 1, b"", b"t"),
            entry(EntryKind::Attribute, 0, 0, b"x", b"1"),
        ],
    };
    assert_eq!(canonicalize(&set), Err(Error::ParseError));
    // A namespace behind an attribute.
    let set = NodeSet {
        entries: vec![
            entry(EntryKind::ElementOpen, 0, 0, b"a", b""),
            entry(EntryKind::Attribute, 0, 0, b"x", b"1"),
            entry(EntryKind::Namespace, 0, 0, b"p", b"urn:p"),
        ],
    };
    assert_eq!(canonicalize(&set), Err(Error::ParseError));
}

#[test]
fn an_entry_deeper_than_the_open_elements_is_a_parse_error() {
    let set = NodeSet { entries: vec![entry(EntryKind::Text, 0, 1, b"", b"t")] };
    assert_eq!(canonicalize(&set), Err(Error::ParseError));
    let set = NodeSet {
        entries: vec![
            entry(EntryKind::ElementOpen, 0, 0, b"a", b""),
            entry(EntryKind::ElementOpen, 1, 2, b"b", b""),
        ],
    };
    assert_eq!(canonicalize(&set), Err(Error::ParseError));
    // Text does not open a level.
    let set = NodeSet {
        entries: vec![
            entry(EntryKind::Text, 0, 0, b"", b"t"),
            entry(EntryKind::Text, 1, 1, b"", b"u"),
        ],
    };
    assert_eq!(canonicalize(&set), Err(Error::ParseError));
}

#[test]
fn bytes_outside_utf8_are_an_encoding_error() {
    let set = NodeSet { entries: vec![entry(EntryKind::Text, 0, 0, b"", &[b'a', 0xc3])] };
    assert_eq!(canonicalize(&set), Err(Error::EncodingError));
    let set = NodeSet { entries: vec![entry(EntryKind::Text, 0, 0, b"", &[b'a', 0xc3, 0xa9])] };
    assert_eq!(canonicalize(&set), Ok(vec![b'a', 0xc3, 0xa9]));
    let set = NodeSet { entries: vec![entry(EntryKind::ElementOpen, 0, 0, &[0x80], b"")] };
    assert_eq!(canonicalize(&set), Err(Error::EncodingError));
    // A structural fault is reported before the encoding is looked at.
    let set = NodeSet {
        entries: vec![
            entry(EntryKind::Text, 0, 0, b"", &[0xff]),
            entry(EntryKind::Attribute, 0, 0, b"x", b"1"),
        ],
    };
    assert_eq!(canonicalize(&set), Err(Error::ParseError));
}

#[test]
fn text_outside_the_basic_plane_is_kept() {
    let mut doc = Document::new();
    let a = doc.add_element(None, b"", "\u{e9}l\u{e9}ment".as_bytes(), b"").unwrap();
    doc.add_attribute(a, b"", "cl\u{e9}".as_bytes(), b"", "\u{20ac}".as_bytes()).unwrap();
    doc.add_text(Some(a), "\u{1f600} \u{4e2d}".as_bytes()).unwrap();
    assert_eq!(
        canonical_text(&doc, a, false),
        "<\u{e9}l\u{e9}ment cl\u{e9}=\"\u{20ac}\">\u{1f600} \u{4e2d}</\u{e9}l\u{e9}ment>"
    );
}
