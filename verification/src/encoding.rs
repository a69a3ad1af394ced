//! Canonical text is well-formed UTF-8 where the document is.
//!
//! Escaping replaces single ASCII bytes by ASCII text, and everything else
//! that is written is a name or a value of the document or ASCII markup.
use vstd::prelude::*;
use vstd::utf8::{
    length_of_first_scalar,
    pop_first_scalar,
    valid_first_scalar,
    valid_utf8,
    valid_utf8_concat,
};
use vstd::seq_lib::to_multiset_contains;
use crate::canonical::{
    attribute_escape,
    attribute_text,
    attributes_text,
    comment_text,
    declares_default,
    end_tag,
    escaped_attribute,
    escaped_text,
    namespace_text,
    namespaces_text,
    qualified_name,
    start_tag,
    text_escape,
    undeclaration,
};
use crate::document::{AttributeView, NamespaceView, NodeKind, NodeView};
use crate::nodeset::{
    EntryKind,
    EntryView,
    binds,
    content_entry,
    declaring,
    namespace_axis,
    not_hidden_by,
    open_entry,
    owned_entries,
    visible_declarations,
};
use crate::order::{canonical_order, lemma_canonical_order};
use crate::subtree::{
    attribute_entries,
    canonical_text,
    children_text,
    namespace_entries,
    subtree_text,
};
use crate::text::{is_ascii_bytes, lemma_ascii_text_bytes};

verus! {

/// Escaped character data is written piece by piece.
pub proof fn lemma_escaped_text_joined(a: Seq<u8>, b: Seq<u8>)
    ensures
        escaped_text(a + b) == escaped_text(a) + escaped_text(b),
    decreases b.len(),
{
    if b.len() == 0 {
        assert(a + b =~= a);
        assert(escaped_text(a) + escaped_text(b) =~= escaped_text(a));
    } else {
        lemma_escaped_text_joined(a, b.drop_last());
        assert((a + b).drop_last() =~= a + b.drop_last());
        assert((a + b).last() == b.last());
        assert(escaped_text(a) + escaped_text(b.drop_last()) + text_escape(b.last())
            =~= escaped_text(a) + (escaped_text(b.drop_last()) + text_escape(b.last())));
    }
}

/// An escaped attribute value is written piece by piece.
pub proof fn lemma_escaped_attribute_joined(a: Seq<u8>, b: Seq<u8>)
    ensures
        escaped_attribute(a + b) == escaped_attribute(a) + escaped_attribute(b),
    decreases b.len(),
{
    if b.len() == 0 {
        assert(a + b =~= a);
        assert(escaped_attribute(a) + escaped_attribute(b) =~= escaped_attribute(a));
    } else {
        lemma_escaped_attribute_joined(a, b.drop_last());
        assert((a + b).drop_last() =~= a + b.drop_last());
        assert((a + b).last() == b.last());
        assert(escaped_attribute(a) + escaped_attribute(b.drop_last()) + attribute_escape(
            b.last(),
        ) =~= escaped_attribute(a) + (escaped_attribute(b.drop_last()) + attribute_escape(
            b.last(),
        )));
    }
}

/// The bytes of one character outside ASCII are written as they are, in
/// character data and in attribute values.
proof fn lemma_escaped_beyond_ascii(bytes: Seq<u8>)
    requires
        forall|k: int| 0 <= k < bytes.len() ==> bytes[k] >= 0x80,
    ensures
        escaped_text(bytes) == bytes,
        escaped_attribute(bytes) == bytes,
    decreases bytes.len(),
{
    if bytes.len() == 0 {
        assert(escaped_text(bytes) =~= bytes);
        assert(escaped_attribute(bytes) =~= bytes);
    } else {
        lemma_escaped_beyond_ascii(bytes.drop_last());
        assert(bytes.drop_last() + seq![bytes.last()] =~= bytes);
    }
}

/// The first character of well-formed UTF-8, taken alone, is well-formed
/// UTF-8, and so is what it is escaped to.
proof fn lemma_first_scalar_escaped(value: Seq<u8>)
    requires
        value.len() > 0,
        valid_utf8(value),
    ensures
        ({
            let n = length_of_first_scalar(value);
            let head = value.subrange(0, n);
            &&& 1 <= n <= value.len()
            &&& valid_utf8(escaped_text(head))
            &&& valid_utf8(escaped_attribute(head))
        }),
{
    let n = length_of_first_scalar(value);
    let head = value.subrange(0, n);
    assert(valid_first_scalar(value));
    if n == 1 {
        let b = value[0];
        assert(head =~= seq![b]);
        assert(head.drop_last() =~= Seq::<u8>::empty());
        assert(escaped_text(head.drop_last()) =~= Seq::<u8>::empty());
        assert(escaped_attribute(head.drop_last()) =~= Seq::<u8>::empty());
        assert(escaped_text(head) =~= text_escape(b));
        assert(escaped_attribute(head) =~= attribute_escape(b));
        assert(is_ascii_bytes(text_escape(b)));
        assert(is_ascii_bytes(attribute_escape(b)));
        lemma_ascii_text_bytes(text_escape(b));
        lemma_ascii_text_bytes(attribute_escape(b));
    } else {
        assert forall|k: int| 0 <= k < head.len() implies head[k] >= 0x80 by {
            assert(head[k] == value[k]);
        }
        lemma_escaped_beyond_ascii(head);
        assert(valid_utf8(head)) by {
            reveal_with_fuel(valid_utf8, 2);
            assert(head[0] == value[0]);
            assert(valid_first_scalar(head)) by {
                assert(forall|k: int| 0 <= k < n ==> head[k] == value[k]);
            }
            assert(pop_first_scalar(head) =~= Seq::<u8>::empty());
        }
    }
}

/// Escaped character data and escaped attribute values are well-formed
/// UTF-8 where the data and the values are.
pub proof fn lemma_escaped_valid(value: Seq<u8>)
    requires
        valid_utf8(value),
    ensures
        valid_utf8(escaped_text(value)),
        valid_utf8(escaped_attribute(value)),
    decreases value.len(),
{
    if value.len() > 0 {
        let n = length_of_first_scalar(value);
        let head = value.subrange(0, n);
        let rest = pop_first_scalar(value);
        lemma_first_scalar_escaped(value);
        assert(head + rest =~= value);
        lemma_escaped_valid(rest);
        lemma_escaped_text_joined(head, rest);
        lemma_escaped_attribute_joined(head, rest);
        valid_utf8_concat(escaped_text(head), escaped_text(rest));
        valid_utf8_concat(escaped_attribute(head), escaped_attribute(rest));
    }
}

/// True when what is written of an attribute is well-formed UTF-8.
pub open spec fn utf8_attribute(a: AttributeView) -> bool {
    valid_utf8(a.prefix) && valid_utf8(a.local_name) && valid_utf8(a.value)
}

/// True when a namespace declaration is well-formed UTF-8.
pub open spec fn utf8_namespace(d: NamespaceView) -> bool {
    valid_utf8(d.prefix) && valid_utf8(d.uri)
}

/// True when what is written of a node is well-formed UTF-8: its name, its
/// value, its attributes and its namespace declarations.
pub open spec fn utf8_node(node: NodeView) -> bool {
    &&& valid_utf8(node.prefix)
    &&& valid_utf8(node.local_name)
    &&& valid_utf8(node.value)
    &&& forall|k: int|
        0 <= k < node.attributes.len() ==> utf8_attribute(#[trigger] node.attributes[k])
    &&& forall|k: int|
        0 <= k < node.namespaces.len() ==> utf8_namespace(#[trigger] node.namespaces[k])
}

/// True when every node of the document is well-formed UTF-8.
pub open spec fn utf8_document(nodes: Seq<NodeView>) -> bool {
    forall|i: int| 0 <= i < nodes.len() ==> utf8_node(#[trigger] nodes[i])
}

/// True when everything in the list is well-formed UTF-8.
pub open spec fn utf8_attributes(items: Seq<AttributeView>) -> bool {
    forall|k: int| 0 <= k < items.len() ==> utf8_attribute(#[trigger] items[k])
}

/// True when what is written of every entry is well-formed UTF-8.
pub open spec fn utf8_entries(entries: Seq<EntryView>) -> bool {
    forall|k: int|
        0 <= k < entries.len() ==> valid_utf8((#[trigger] entries[k]).prefix) && valid_utf8(
            entries[k].local_name,
        ) && valid_utf8(entries[k].value)
}

/// Sorting keeps what is sorted.
proof fn lemma_sorted_utf8(items: Seq<AttributeView>)
    requires
        utf8_attributes(items),
    ensures
        utf8_attributes(canonical_order(items)),
{
    let sorted = canonical_order(items);
    lemma_canonical_order(items);
    assert forall|k: int| 0 <= k < sorted.len() implies utf8_attribute(#[trigger] sorted[k]) by {
        assert(sorted.contains(sorted[k]));
        to_multiset_contains(sorted, sorted[k]);
        to_multiset_contains(items, sorted[k]);
        let j = choose|j: int| 0 <= j < items.len() && items[j] == sorted[k];
        assert(utf8_attribute(items[j]));
    }
}

/// The declarations that can be seen from a node of a UTF-8 document are
/// well-formed UTF-8.
proof fn lemma_declarations_utf8(nodes: Seq<NodeView>, id: int)
    requires
        utf8_document(nodes),
    ensures
        forall|k: int|
            0 <= k < visible_declarations(nodes, id).len() ==> utf8_namespace(
                #[trigger] visible_declarations(nodes, id)[k],
            ),
    decreases id,
{
    if 0 <= id < nodes.len() {
        let own = nodes[id].namespaces;
        assert(utf8_node(nodes[id]));
        match nodes[id].parent {
            Some(p) => {
                if p < id {
                    lemma_declarations_utf8(nodes, p as int);
                    let seen = visible_declarations(nodes, p as int);
                    let kept = seen.filter(not_hidden_by(own));
                    let all = visible_declarations(nodes, id);
                    assert(all == own + kept);
                    assert forall|k: int| 0 <= k < all.len() implies utf8_namespace(
                        #[trigger] all[k],
                    ) by {
                        if k < own.len() {
                            assert(all[k] == own[k]);
                        } else {
                            let d = kept[k - own.len()];
                            assert(all[k] == d);
                            assert(kept.contains(d));
                            seen.lemma_filter_contains_rev(not_hidden_by(own), d);
                            let j = choose|j: int| 0 <= j < seen.len() && seen[j] == d;
                            assert(utf8_namespace(seen[j]));
                        }
                    }
                }
            },
            None => {},
        }
    }
}

/// The namespaces in scope at a node of a UTF-8 document are well-formed
/// UTF-8.
proof fn lemma_axis_utf8(nodes: Seq<NodeView>, id: int)
    requires
        utf8_document(nodes),
    ensures
        utf8_attributes(namespace_axis(nodes, id)),
{
    let seen = visible_declarations(nodes, id);
    let bound = seen.filter(binds());
    let mapped = bound.map_values(declaring());
    lemma_declarations_utf8(nodes, id);
    assert forall|k: int| 0 <= k < mapped.len() implies utf8_attribute(#[trigger] mapped[k]) by {
        let d = bound[k];
        assert(bound.contains(d));
        seen.lemma_filter_contains_rev(binds(), d);
        let j = choose|j: int| 0 <= j < seen.len() && seen[j] == d;
        assert(utf8_namespace(seen[j]));
        assert(valid_utf8(Seq::<u8>::empty()));
    }
    lemma_sorted_utf8(mapped);
}

/// The entries of what an element of a UTF-8 document owns are well-formed
/// UTF-8.
proof fn lemma_owned_utf8(kind: EntryKind, items: Seq<AttributeView>, id: usize, depth: usize)
    requires
        utf8_attributes(items),
    ensures
        utf8_entries(owned_entries(kind, items, id, depth)),
{
    let entries = owned_entries(kind, items, id, depth);
    assert forall|k: int| 0 <= k < entries.len() implies valid_utf8((#[trigger] entries[k]).prefix)
        && valid_utf8(entries[k].local_name) && valid_utf8(entries[k].value) by {
        assert(utf8_attribute(items[k]));
    }
}

/// Three pieces of well-formed UTF-8, joined, are well-formed UTF-8.
proof fn lemma_joined_valid(a: Seq<u8>, b: Seq<u8>, c: Seq<u8>)
    requires
        valid_utf8(a),
        valid_utf8(b),
        valid_utf8(c),
    ensures
        valid_utf8(a + b),
        valid_utf8(a + b + c),
{
    valid_utf8_concat(a, b);
    valid_utf8_concat(a + b, c);
}

/// A name of well-formed UTF-8 is written as well-formed UTF-8.
proof fn lemma_name_valid(prefix: Seq<u8>, local_name: Seq<u8>)
    requires
        valid_utf8(prefix),
        valid_utf8(local_name),
    ensures
        valid_utf8(qualified_name(prefix, local_name)),
{
    lemma_ascii_text_bytes(seq![58u8]);
    lemma_joined_valid(prefix, seq![58u8], local_name);
}

/// A namespace declaration and an attribute of well-formed UTF-8 are
/// written as well-formed UTF-8.
proof fn lemma_owned_text_valid(e: EntryView)
    requires
        valid_utf8(e.prefix),
        valid_utf8(e.local_name),
        valid_utf8(e.value),
    ensures
        valid_utf8(namespace_text(e)),
        valid_utf8(attribute_text(e)),
{
    let xmlns = seq![32u8, 120, 109, 108, 110, 115];
    let name = if e.local_name.len() == 0 {
        Seq::<u8>::empty()
    } else {
        seq![58u8] + e.local_name
    };
    lemma_ascii_text_bytes(xmlns);
    lemma_ascii_text_bytes(seq![58u8]);
    lemma_ascii_text_bytes(seq![61u8, 34]);
    lemma_ascii_text_bytes(seq![34u8]);
    lemma_ascii_text_bytes(seq![32u8]);
    lemma_escaped_valid(e.value);
    assert(valid_utf8(name)) by {
        if e.local_name.len() != 0 {
            valid_utf8_concat(seq![58u8], e.local_name);
        }
    }
    lemma_joined_valid(xmlns, name, seq![61u8, 34]);
    lemma_joined_valid(xmlns + name + seq![61u8, 34], escaped_attribute(e.value), seq![34u8]);
    lemma_name_valid(e.prefix, e.local_name);
    lemma_joined_valid(seq![32u8], qualified_name(e.prefix, e.local_name), seq![61u8, 34]);
    lemma_joined_valid(
        seq![32u8] + qualified_name(e.prefix, e.local_name) + seq![61u8, 34],
        escaped_attribute(e.value),
        seq![34u8],
    );
}

/// The namespace declarations and the attributes of a start tag are
/// well-formed UTF-8 where their entries are.
proof fn lemma_runs_valid(run: Seq<EntryView>, inherited: Seq<EntryView>, count: int)
    requires
        utf8_entries(run),
        0 <= count <= run.len(),
    ensures
        valid_utf8(namespaces_text(run, inherited, count)),
        valid_utf8(attributes_text(run, count)),
    decreases count,
{
    if count > 0 {
        lemma_runs_valid(run, inherited, count - 1);
        let e = run[count - 1];
        lemma_owned_text_valid(e);
        valid_utf8_concat(namespaces_text(run, inherited, count - 1), namespace_text(e));
        valid_utf8_concat(namespaces_text(run, inherited, count - 1), Seq::<u8>::empty());
        valid_utf8_concat(attributes_text(run, count - 1), attribute_text(e));
    }
}

/// The tags of an element are well-formed UTF-8 where its entries are.
proof fn lemma_tags_valid(
    e: EntryView,
    namespaces: Seq<EntryView>,
    inherited: Seq<EntryView>,
    attributes: Seq<EntryView>,
)
    requires
        valid_utf8(e.prefix),
        valid_utf8(e.local_name),
        utf8_entries(namespaces),
        utf8_entries(attributes),
    ensures
        valid_utf8(start_tag(e, namespaces, inherited, attributes)),
        valid_utf8(end_tag(e)),
{
    let name = qualified_name(e.prefix, e.local_name);
    let undone = if !declares_default(namespaces) && declares_default(inherited) {
        undeclaration()
    } else {
        Seq::<u8>::empty()
    };
    lemma_name_valid(e.prefix, e.local_name);
    lemma_ascii_text_bytes(seq![60u8]);
    lemma_ascii_text_bytes(seq![62u8]);
    lemma_ascii_text_bytes(seq![60u8, 47]);
    lemma_ascii_text_bytes(undeclaration());
    lemma_runs_valid(namespaces, inherited, namespaces.len() as int);
    lemma_runs_valid(attributes, inherited, attributes.len() as int);
    lemma_joined_valid(seq![60u8], name, undone);
    lemma_joined_valid(
        seq![60u8] + name + undone,
        namespaces_text(namespaces, inherited, namespaces.len() as int),
        attributes_text(attributes, attributes.len() as int),
    );
    valid_utf8_concat(
        seq![60u8] + name + undone + namespaces_text(
            namespaces,
            inherited,
            namespaces.len() as int,
        ) + attributes_text(attributes, attributes.len() as int),
        seq![62u8],
    );
    lemma_joined_valid(seq![60u8, 47], name, seq![62u8]);
}

/// The canonical text of a subtree of a UTF-8 document is well-formed
/// UTF-8.
proof fn lemma_subtree_valid(
    nodes: Seq<NodeView>,
    id: int,
    depth: usize,
    enclosing: Seq<EntryView>,
    comments: bool,
)
    requires
        utf8_document(nodes),
    ensures
        valid_utf8(subtree_text(nodes, id, depth, enclosing, comments)),
    decreases nodes.len() - id, 1int, 0int,
{
    if 0 <= id < nodes.len() {
        let node = nodes[id];
        assert(utf8_node(node));
        match node.kind {
            NodeKind::Element => {
                let e = open_entry(node, id as usize, depth);
                let own = namespace_entries(nodes, id, depth);
                let attributes = attribute_entries(nodes, id, depth);
                let deeper = (depth + 1) as usize;
                lemma_axis_utf8(nodes, id);
                lemma_owned_utf8(
                    EntryKind::Namespace,
                    namespace_axis(nodes, id),
                    id as usize,
                    depth,
                );
                assert(utf8_attributes(node.attributes));
                lemma_sorted_utf8(node.attributes);
                lemma_owned_utf8(
                    EntryKind::Attribute,
                    canonical_order(node.attributes),
                    id as usize,
                    depth,
                );
                lemma_tags_valid(e, own, enclosing, attributes);
                lemma_children_valid(
                    nodes,
                    id,
                    node.children.len() as int,
                    deeper,
                    own,
                    comments,
                );
                lemma_joined_valid(
                    start_tag(e, own, enclosing, attributes),
                    children_text(nodes, id, node.children.len() as int, deeper, own, comments),
                    end_tag(e),
                );
            },
            NodeKind::Text => {
                lemma_escaped_valid(node.value);
            },
            NodeKind::CData => {
                lemma_escaped_valid(node.value);
            },
            NodeKind::Comment => {
                if comments {
                    let e = content_entry(EntryKind::Comment, node, id as usize, depth);
                    lemma_ascii_text_bytes(seq![60u8, 33, 45, 45]);
                    lemma_ascii_text_bytes(seq![45u8, 45, 62]);
                    lemma_joined_valid(seq![60u8, 33, 45, 45], e.value, seq![45u8, 45, 62]);
                    assert(comment_text(e) == seq![60u8, 33, 45, 45] + e.value + seq![
                        45u8,
                        45,
                        62,
                    ]);
                }
            },
            NodeKind::Unsupported => {},
        }
    }
}

/// The same for the first children of a node.
proof fn lemma_children_valid(
    nodes: Seq<NodeView>,
    id: int,
    count: int,
    depth: usize,
    enclosing: Seq<EntryView>,
    comments: bool,
)
    requires
        utf8_document(nodes),
    ensures
        valid_utf8(children_text(nodes, id, count, depth, enclosing, comments)),
    decreases nodes.len() - id, 0int, count,
{
    if 0 <= id < nodes.len() && 0 < count <= nodes[id].children.len() {
        let child = nodes[id].children[count - 1] as int;
        lemma_children_valid(nodes, id, count - 1, depth, enclosing, comments);
        if id < child < nodes.len() {
            lemma_subtree_valid(nodes, child, depth, enclosing, comments);
        }
        valid_utf8_concat(
            children_text(nodes, id, count - 1, depth, enclosing, comments),
            if id < child < nodes.len() {
                subtree_text(nodes, child, depth, enclosing, comments)
            } else {
                Seq::<u8>::empty()
            },
        );
    }
}

/// The canonical text of every subtree of a document whose names and
/// values are well-formed UTF-8 is well-formed UTF-8.
pub proof fn lemma_canonical_text_valid(nodes: Seq<NodeView>, context: int, comments: bool)
    requires
        utf8_document(nodes),
    ensures
        valid_utf8(canonical_text(nodes, context, comments)),
{
    lemma_subtree_valid(nodes, context, 0, Seq::empty(), comments);
}

} // verus!
