//! Node sets, and the selector that derives one from a subtree.
//!
//! A node set lists, in document order, the nodes that take part in
//! canonicalization. Every entry names its node and says how deep it lies
//! below the context node. An element is followed by its namespace axis and
//! its attributes, each in canonical order, and then by what it contains.
use vstd::prelude::*;
use crate::bytes::{bytes_equal, copy_bytes};
use crate::document::{
    Attribute,
    AttributeView,
    Document,
    NamespaceDeclaration,
    NamespaceView,
    Node,
    NodeKind,
    NodeView,
    attribute_views,
    namespace_views,
    node_fits,
};
use crate::error::Error;
use crate::unique::{lemma_selection_distinct, no_node_twice};
use crate::order::{canonical_order, sorted_attributes};

verus! {

/// What an entry of a node set stands for.
#[derive(Clone, Copy, Debug, PartialEq, Eq, Structural)]
pub enum EntryKind {
    /// The start of an element.
    ElementOpen,
    /// A namespace in scope at an element, held as the attribute that would
    /// declare it: the local name is the declared prefix, the value the URI.
    Namespace,
    /// An attribute of an element.
    Attribute,
    /// Character data, from a text node or a CDATA section.
    Text,
    /// A comment.
    Comment,
}

/// An entry of a node set. `node` names the node in its document; for a
/// namespace or an attribute it names the element that owns it. `depth` is
/// the number of elements of the node set that enclose the node.
#[derive(Debug)]
pub struct NodeSetEntry {
    pub kind: EntryKind,
    pub node: usize,
    pub depth: usize,
    pub prefix: Vec<u8>,
    pub local_name: Vec<u8>,
    pub namespace_uri: Vec<u8>,
    pub value: Vec<u8>,
}

/// The value of an entry.
pub struct EntryView {
    pub kind: EntryKind,
    pub node: usize,
    pub depth: usize,
    pub prefix: Seq<u8>,
    pub local_name: Seq<u8>,
    pub namespace_uri: Seq<u8>,
    pub value: Seq<u8>,
}

impl View for NodeSetEntry {
    type V = EntryView;

    open spec fn view(&self) -> EntryView {
        EntryView {
            kind: self.kind,
            node: self.node,
            depth: self.depth,
            prefix: self.prefix@,
            local_name: self.local_name@,
            namespace_uri: self.namespace_uri@,
            value: self.value@,
        }
    }
}

/// The values of a list of entries.
pub open spec fn entry_views(items: Seq<NodeSetEntry>) -> Seq<EntryView> {
    items.map_values(|e: NodeSetEntry| e@)
}

/// An ordered collection of the nodes that take part in canonicalization.
#[derive(Debug)]
pub struct NodeSet {
    pub entries: Vec<NodeSetEntry>,
}

impl View for NodeSet {
    type V = Seq<EntryView>;

    open spec fn view(&self) -> Seq<EntryView> {
        entry_views(self.entries@)
    }
}

/// True when one of the declarations declares `prefix`.
pub open spec fn declares(declarations: Seq<NamespaceView>, prefix: Seq<u8>) -> bool {
    exists|k: int| 0 <= k < declarations.len() && (#[trigger] declarations[k]).prefix == prefix
}

/// The declarations that `own` does not hide by declaring their prefix anew.
pub open spec fn not_hidden_by(own: Seq<NamespaceView>) -> spec_fn(NamespaceView) -> bool {
    |d: NamespaceView| !declares(own, d.prefix)
}

/// The declarations that bind their prefix to a namespace.
pub open spec fn binds() -> spec_fn(NamespaceView) -> bool {
    |d: NamespaceView| d.uri.len() > 0
}

/// The declarations that can be seen from node `id`: its own, and those of
/// its ancestors that no nearer declaration of the same prefix hides.
pub open spec fn visible_declarations(nodes: Seq<NodeView>, id: int) -> Seq<NamespaceView>
    decreases id,
{
    if id < 0 || id >= nodes.len() {
        Seq::empty()
    } else {
        let own = nodes[id].namespaces;
        match nodes[id].parent {
            Some(p) => if p < id {
                own + visible_declarations(nodes, p as int).filter(not_hidden_by(own))
            } else {
                own
            },
            None => own,
        }
    }
}

/// The attribute that declares a namespace: `xmlns` for the default
/// namespace, `xmlns:prefix` for any other.
pub open spec fn declaring_attribute(d: NamespaceView) -> AttributeView {
    AttributeView {
        prefix: Seq::empty(),
        local_name: d.prefix,
        namespace_uri: Seq::empty(),
        value: d.uri,
    }
}

/// The step from a declaration to the attribute that declares it.
pub open spec fn declaring() -> spec_fn(NamespaceView) -> AttributeView {
    |d: NamespaceView| declaring_attribute(d)
}

/// The namespaces in scope at node `id`, in canonical order: every visible
/// declaration that binds its prefix, the default namespace first.
pub open spec fn namespace_axis(nodes: Seq<NodeView>, id: int) -> Seq<AttributeView> {
    canonical_order(visible_declarations(nodes, id).filter(binds()).map_values(declaring()))
}

/// The entry that opens element `id`.
pub open spec fn open_entry(node: NodeView, id: usize, depth: usize) -> EntryView {
    EntryView {
        kind: EntryKind::ElementOpen,
        node: id,
        depth,
        prefix: node.prefix,
        local_name: node.local_name,
        namespace_uri: node.namespace_uri,
        value: Seq::empty(),
    }
}

/// The entry for a namespace or an attribute that element `id` owns.
pub open spec fn owned_entry(
    kind: EntryKind,
    item: AttributeView,
    id: usize,
    depth: usize,
) -> EntryView {
    EntryView {
        kind,
        node: id,
        depth,
        prefix: item.prefix,
        local_name: item.local_name,
        namespace_uri: item.namespace_uri,
        value: item.value,
    }
}

/// The step from a namespace or an attribute to its entry.
pub open spec fn owning(kind: EntryKind, id: usize, depth: usize) -> spec_fn(
    AttributeView,
) -> EntryView {
    |item: AttributeView| owned_entry(kind, item, id, depth)
}

/// The entries for a list of namespaces or attributes that element `id` owns.
pub open spec fn owned_entries(
    kind: EntryKind,
    items: Seq<AttributeView>,
    id: usize,
    depth: usize,
) -> Seq<EntryView> {
    items.map_values(owning(kind, id, depth))
}

/// The entry for text or a comment.
pub open spec fn content_entry(
    kind: EntryKind,
    node: NodeView,
    id: usize,
    depth: usize,
) -> EntryView {
    EntryView {
        kind,
        node: id,
        depth,
        prefix: Seq::empty(),
        local_name: Seq::empty(),
        namespace_uri: Seq::empty(),
        value: node.value,
    }
}

/// The entries that node `id` gives by itself: for an element its start,
/// every namespace in scope and every attribute; for text and CDATA their
/// characters; for a comment the comment, where comments are included.
pub open spec fn own_entries(nodes: Seq<NodeView>, id: int, depth: usize, comments: bool) -> Seq<
    EntryView,
> {
    let node = nodes[id];
    match node.kind {
        NodeKind::Element => seq![open_entry(node, id as usize, depth)] + owned_entries(
            EntryKind::Namespace,
            namespace_axis(nodes, id),
            id as usize,
            depth,
        ) + owned_entries(
            EntryKind::Attribute,
            canonical_order(node.attributes),
            id as usize,
            depth,
        ),
        NodeKind::Text => seq![content_entry(EntryKind::Text, node, id as usize, depth)],
        NodeKind::CData => seq![content_entry(EntryKind::Text, node, id as usize, depth)],
        NodeKind::Comment => if comments {
            seq![content_entry(EntryKind::Comment, node, id as usize, depth)]
        } else {
            Seq::empty()
        },
        NodeKind::Unsupported => Seq::empty(),
    }
}

/// The entries of the subtree of node `id`, in document order: the node's
/// own entries, then those of its children, one level deeper.
pub open spec fn node_entries(nodes: Seq<NodeView>, id: int, depth: usize, comments: bool) -> Seq<
    EntryView,
>
    decreases nodes.len() - id, 1int, 0int,
{
    if id < 0 || id >= nodes.len() {
        Seq::empty()
    } else {
        own_entries(nodes, id, depth, comments) + children_entries(
            nodes,
            id,
            nodes[id].children.len() as int,
            (depth + 1) as usize,
            comments,
        )
    }
}

/// The entries of the subtrees of the first `count` children of node `id`.
pub open spec fn children_entries(
    nodes: Seq<NodeView>,
    id: int,
    count: int,
    depth: usize,
    comments: bool,
) -> Seq<EntryView>
    decreases nodes.len() - id, 0int, count,
{
    if id < 0 || id >= nodes.len() || count <= 0 || count > nodes[id].children.len() {
        Seq::empty()
    } else {
        let child = nodes[id].children[count - 1] as int;
        children_entries(nodes, id, count - 1, depth, comments) + if id < child < nodes.len() {
            node_entries(nodes, child, depth, comments)
        } else {
            Seq::empty()
        }
    }
}

/// True when the subtree of node `id` holds no node of an unsupported kind.
pub open spec fn node_supported(nodes: Seq<NodeView>, id: int) -> bool
    decreases nodes.len() - id, 1int, 0int,
{
    if id < 0 || id >= nodes.len() {
        true
    } else {
        nodes[id].kind != NodeKind::Unsupported && children_supported(
            nodes,
            id,
            nodes[id].children.len() as int,
        )
    }
}

/// True when the subtrees of the first `count` children of node `id` hold
/// no node of an unsupported kind.
pub open spec fn children_supported(nodes: Seq<NodeView>, id: int, count: int) -> bool
    decreases nodes.len() - id, 0int, count,
{
    if id < 0 || id >= nodes.len() || count <= 0 || count > nodes[id].children.len() {
        true
    } else {
        let child = nodes[id].children[count - 1] as int;
        children_supported(nodes, id, count - 1) && (id < child < nodes.len() ==> node_supported(
            nodes,
            child,
        ))
    }
}

/// What the selector gives for a context node: `InvalidXml` where the node
/// is none of the document, `SelectorError` where a node to be selected is of
/// an unsupported kind, and else the entries of the context node alone or of
/// its whole subtree.
pub open spec fn selection(
    nodes: Seq<NodeView>,
    context: int,
    include_comments: bool,
    context_node_only: bool,
) -> Result<Seq<EntryView>, Error> {
    if context < 0 || context >= nodes.len() {
        Err(Error::InvalidXml)
    } else if context_node_only {
        if nodes[context].kind == NodeKind::Unsupported {
            Err(Error::SelectorError)
        } else {
            Ok(own_entries(nodes, context, 0, include_comments))
        }
    } else if !node_supported(nodes, context) {
        Err(Error::SelectorError)
    } else {
        Ok(node_entries(nodes, context, 0, include_comments))
    }
}

/// Returns true when one of the declarations declares `prefix`.
fn declared(declarations: &Vec<NamespaceDeclaration>, prefix: &[u8]) -> (found: bool)
    ensures
        found == declares(namespace_views(declarations@), prefix@),
{
    let mut k: usize = 0;
    while k < declarations.len()
        invariant
            k <= declarations@.len(),
            forall|j: int| 0 <= j < k ==> namespace_views(declarations@)[j].prefix != prefix@,
        decreases declarations@.len() - k,
    {
        if bytes_equal(declarations[k].prefix.as_slice(), prefix) {
            assert(namespace_views(declarations@)[k as int].prefix == prefix@);
            return true;
        }
        k = k + 1;
    }
    false
}

/// Returns a copy of the declaration.
fn copy_declaration(d: &NamespaceDeclaration) -> (copy: NamespaceDeclaration)
    ensures
        copy@ == d@,
{
    NamespaceDeclaration {
        prefix: copy_bytes(d.prefix.as_slice()),
        uri: copy_bytes(d.uri.as_slice()),
    }
}

/// Returns the declarations that can be seen from node `id`.
fn visible(doc: &Document, id: usize) -> (out: Vec<NamespaceDeclaration>)
    requires
        doc.wf(),
        id < doc@.len(),
    ensures
        namespace_views(out@) == visible_declarations(doc@, id as int),
    decreases id,
{
    let node = doc.node_at(id);
    let ghost own = doc@[id as int].namespaces;
    let mut out: Vec<NamespaceDeclaration> = Vec::new();
    let mut k: usize = 0;
    assert(namespace_views(out@) =~= own.take(0));
    while k < node.namespaces.len()
        invariant
            k <= node.namespaces@.len(),
            own == namespace_views(node.namespaces@),
            namespace_views(out@) == own.take(k as int),
        decreases node.namespaces@.len() - k,
    {
        let ghost before = namespace_views(out@);
        out.push(copy_declaration(&node.namespaces[k]));
        proof {
            assert(own[k as int] == node.namespaces@[k as int]@);
            assert(namespace_views(out@) =~= before.push(own[k as int]));
            assert(own.take(k + 1) =~= own.take(k as int).push(own[k as int]));
        }
        k = k + 1;
    }
    assert(own.take(k as int) =~= own);
    match node.parent {
        Some(p) => {
            assert(node_fits(doc@, id as int));
            let inherited = visible(doc, p);
            let ghost seen = namespace_views(inherited@);
            let ghost keep = not_hidden_by(own);
            let mut j: usize = 0;
            proof {
                reveal(Seq::filter);
                assert(seen.take(0).filter(keep) =~= Seq::empty());
                assert(own + seen.take(0).filter(keep) =~= own);
            }
            while j < inherited.len()
                invariant
                    j <= inherited@.len(),
                    own == namespace_views(node.namespaces@),
                    seen == namespace_views(inherited@),
                    keep == not_hidden_by(own),
                    namespace_views(out@) == own + seen.take(j as int).filter(keep),
                decreases inherited@.len() - j,
            {
                let ghost before = namespace_views(out@);
                let hidden = declared(&node.namespaces, inherited[j].prefix.as_slice());
                if !hidden {
                    out.push(copy_declaration(&inherited[j]));
                }
                proof {
                    let d = seen[j as int];
                    assert(seen.take(j + 1) =~= seen.take(j as int).push(d));
                    seen.take(j as int).lemma_filter_push(d, keep);
                    assert(keep(d) == !hidden);
                    if !hidden {
                        assert(namespace_views(out@) =~= before.push(d));
                        assert(before.push(d) =~= own + seen.take(j as int).filter(keep).push(d));
                    }
                }
                j = j + 1;
            }
            assert(seen.take(j as int) =~= seen);
        },
        None => {},
    }
    out
}

/// Returns the namespaces in scope at node `id`, each as the attribute that
/// declares it, in canonical order: the nearest declaration of every prefix
/// counts, and a prefix bound to the empty URI is out of scope. Where the
/// document has no node `id`, no namespace is in scope.
pub fn in_scope_namespaces(doc: &Document, id: usize) -> (axis: Vec<Attribute>)
    requires
        doc.wf(),
    ensures
        attribute_views(axis@) == namespace_axis(doc@, id as int),
{
    if id >= doc.len() {
        let none: Vec<Attribute> = Vec::new();
        proof {
            reveal(Seq::filter);
            assert(attribute_views(none@) =~= namespace_axis(doc@, id as int));
        }
        return none;
    }
    let seen = visible(doc, id);
    let ghost all = namespace_views(seen@);
    let mut bound: Vec<Attribute> = Vec::new();
    let mut k: usize = 0;
    proof {
        reveal(Seq::filter);
        assert(all.take(0).filter(binds()) =~= Seq::empty());
        assert(attribute_views(bound@) =~= all.take(0).filter(binds()).map_values(declaring()));
    }
    while k < seen.len()
        invariant
            k <= seen@.len(),
            all == namespace_views(seen@),
            attribute_views(bound@) == all.take(k as int).filter(binds()).map_values(declaring()),
        decreases seen@.len() - k,
    {
        let ghost before = attribute_views(bound@);
        if seen[k].uri.len() > 0 {
            bound.push(
                Attribute {
                    prefix: Vec::new(),
                    local_name: copy_bytes(seen[k].prefix.as_slice()),
                    namespace_uri: Vec::new(),
                    value: copy_bytes(seen[k].uri.as_slice()),
                },
            );
        }
        proof {
            let d = all[k as int];
            assert(all.take(k + 1) =~= all.take(k as int).push(d));
            all.take(k as int).lemma_filter_push(d, binds());
            if d.uri.len() > 0 {
                assert(attribute_views(bound@) =~= before.push(declaring_attribute(d)));
                assert(all.take(k as int).filter(binds()).push(d).map_values(declaring())
                    =~= before.push(declaring_attribute(d)));
            }
        }
        k = k + 1;
    }
    assert(all.take(k as int) =~= all);
    sorted_attributes(&bound)
}

/// Appends the entries for the namespaces or attributes that element `id`
/// owns.
fn push_owned(
    out: &mut Vec<NodeSetEntry>,
    kind: EntryKind,
    items: &Vec<Attribute>,
    id: usize,
    depth: usize,
)
    ensures
        entry_views(final(out)@) == entry_views(old(out)@) + owned_entries(
            kind,
            attribute_views(items@),
            id,
            depth,
        ),
{
    let ghost base = entry_views(out@);
    let ghost all = owned_entries(kind, attribute_views(items@), id, depth);
    let mut k: usize = 0;
    assert(base + all.take(0) =~= base);
    while k < items.len()
        invariant
            k <= items@.len(),
            all == owned_entries(kind, attribute_views(items@), id, depth),
            entry_views(out@) == base + all.take(k as int),
        decreases items@.len() - k,
    {
        let item = &items[k];
        let ghost before = entry_views(out@);
        out.push(
            NodeSetEntry {
                kind,
                node: id,
                depth,
                prefix: copy_bytes(item.prefix.as_slice()),
                local_name: copy_bytes(item.local_name.as_slice()),
                namespace_uri: copy_bytes(item.namespace_uri.as_slice()),
                value: copy_bytes(item.value.as_slice()),
            },
        );
        proof {
            assert(attribute_views(items@)[k as int] == items@[k as int]@);
            assert(all[k as int] == owned_entry(kind, items@[k as int]@, id, depth));
            assert(entry_views(out@) =~= before.push(all[k as int]));
            assert(all.take(k + 1) =~= all.take(k as int).push(all[k as int]));
            assert(before.push(all[k as int]) =~= base + all.take(k + 1));
        }
        k = k + 1;
    }
    assert(all.take(k as int) =~= all);
}

/// Appends the entries that node `id` gives by itself.
fn collect_own(
    doc: &Document,
    id: usize,
    depth: usize,
    comments: bool,
    out: &mut Vec<NodeSetEntry>,
) -> (r: Result<(), Error>)
    requires
        doc.wf(),
        id < doc@.len(),
    ensures
        match r {
            Ok(()) => doc@[id as int].kind != NodeKind::Unsupported && entry_views(final(out)@)
                == entry_views(old(out)@) + own_entries(doc@, id as int, depth, comments),
            Err(e) => doc@[id as int].kind == NodeKind::Unsupported && e == Error::SelectorError,
        },
{
    let node = doc.node_at(id);
    let ghost base = entry_views(out@);
    match node.kind {
        NodeKind::Element => {
            out.push(
                NodeSetEntry {
                    kind: EntryKind::ElementOpen,
                    node: id,
                    depth,
                    prefix: copy_bytes(node.prefix.as_slice()),
                    local_name: copy_bytes(node.local_name.as_slice()),
                    namespace_uri: copy_bytes(node.namespace_uri.as_slice()),
                    value: Vec::new(),
                },
            );
            assert(entry_views(out@) =~= base + seq![open_entry(doc@[id as int], id, depth)]);
            let axis = in_scope_namespaces(doc, id);
            push_owned(out, EntryKind::Namespace, &axis, id, depth);
            let attributes = sorted_attributes(&node.attributes);
            push_owned(out, EntryKind::Attribute, &attributes, id, depth);
            assert(entry_views(out@) =~= base + own_entries(doc@, id as int, depth, comments));
            Ok(())
        },
        NodeKind::Text | NodeKind::CData => {
            out.push(content(EntryKind::Text, node, id, depth));
            assert(entry_views(out@) =~= base + own_entries(doc@, id as int, depth, comments));
            Ok(())
        },
        NodeKind::Comment => {
            if comments {
                out.push(content(EntryKind::Comment, node, id, depth));
            }
            assert(entry_views(out@) =~= base + own_entries(doc@, id as int, depth, comments));
            Ok(())
        },
        NodeKind::Unsupported => Err(Error::SelectorError),
    }
}

/// Returns the entry for text or a comment.
fn content(kind: EntryKind, node: &Node, id: usize, depth: usize) -> (entry:
    NodeSetEntry)
    ensures
        entry@ == content_entry(kind, node@, id, depth),
{
    NodeSetEntry {
        kind,
        node: id,
        depth,
        prefix: Vec::new(),
        local_name: Vec::new(),
        namespace_uri: Vec::new(),
        value: copy_bytes(node.value.as_slice()),
    }
}

/// If the children up to some count are all supported, so are the children
/// up to any smaller count.
proof fn lemma_children_supported_prefix(nodes: Seq<NodeView>, id: int, count: int, fewer: int)
    requires
        0 <= id < nodes.len(),
        0 <= fewer <= count <= nodes[id].children.len(),
        children_supported(nodes, id, count),
    ensures
        children_supported(nodes, id, fewer),
    decreases count - fewer,
{
    if fewer < count {
        lemma_children_supported_prefix(nodes, id, count - 1, fewer);
    }
}

/// Appends the entries of the subtree of node `id`.
fn collect(
    doc: &Document,
    id: usize,
    depth: usize,
    comments: bool,
    out: &mut Vec<NodeSetEntry>,
) -> (r: Result<(), Error>)
    requires
        doc.wf(),
        id < doc@.len(),
        depth <= id,
    ensures
        match r {
            Ok(()) => node_supported(doc@, id as int) && entry_views(final(out)@) == entry_views(
                old(out)@,
            ) + node_entries(doc@, id as int, depth, comments),
            Err(e) => !node_supported(doc@, id as int) && e == Error::SelectorError,
        },
    decreases doc@.len() - id,
{
    let ghost base = entry_views(out@);
    match collect_own(doc, id, depth, comments, out) {
        Ok(()) => {},
        Err(e) => {
            return Err(e);
        },
    }
    let node = doc.node_at(id);
    let ghost own = own_entries(doc@, id as int, depth, comments);
    let mut k: usize = 0;
    assert(node_fits(doc@, id as int));
    assert(base + own + children_entries(doc@, id as int, 0, (depth + 1) as usize, comments)
        =~= base + own);
    while k < node.children.len()
        invariant
            doc.wf(),
            id < doc@.len(),
            depth <= id,
            node@ == doc@[id as int],
            k <= node.children@.len(),
            children_supported(doc@, id as int, k as int),
            entry_views(out@) == base + own + children_entries(
                doc@,
                id as int,
                k as int,
                (depth + 1) as usize,
                comments,
            ),
        decreases node.children@.len() - k,
    {
        let child: usize = node.children[k];
        assert(node_fits(doc@, id as int));
        assert(id < doc@[id as int].children[k as int] < doc@.len());
        let ghost before = entry_views(out@);
        match collect(doc, child, depth + 1, comments, out) {
            Ok(()) => {
                assert(entry_views(out@) =~= base + own + children_entries(
                    doc@,
                    id as int,
                    k + 1,
                    (depth + 1) as usize,
                    comments,
                ));
            },
            Err(e) => {
                proof {
                    assert(!children_supported(doc@, id as int, k + 1));
                    if children_supported(doc@, id as int, node.children@.len() as int) {
                        lemma_children_supported_prefix(
                            doc@,
                            id as int,
                            node.children@.len() as int,
                            k + 1,
                        );
                    }
                }
                return Err(e);
            },
        }
        k = k + 1;
    }
    Ok(())
}

/// Selects the nodes that take part in the canonicalization of the subtree
/// of `context`: in document order, every element with the namespaces in
/// scope at it and its attributes, and every text node and CDATA section.
/// Comments are selected only where `include_comments` is set. Where
/// `context_node_only` is set, the walk stops at the context node itself.
///
/// Fails with `InvalidXml` where `context` names no node of the document,
/// and with `SelectorError` where a node to be selected is of an unsupported
/// kind. No node is selected twice.
pub fn select(
    doc: &Document,
    context: usize,
    include_comments: bool,
    context_node_only: bool,
) -> (r: Result<NodeSet, Error>)
    requires
        doc.wf(),
    ensures
        match r {
            Ok(set) => selection(doc@, context as int, include_comments, context_node_only) == Ok::<
                Seq<EntryView>,
                Error,
            >(set@),
            Err(e) => selection(doc@, context as int, include_comments, context_node_only) == Err::<
                Seq<EntryView>,
                Error,
            >(e),
        },
        r matches Ok(set) ==> no_node_twice(set@),
{
    proof {
        doc.lemma_len_fits();
        lemma_selection_distinct(doc@, context as int, include_comments, context_node_only);
    }
    if context >= doc.len() {
        return Err(Error::InvalidXml);
    }
    let mut entries: Vec<NodeSetEntry> = Vec::new();
    let ghost base = entry_views(entries@);
    assert(base =~= Seq::empty());
    let walked = if context_node_only {
        collect_own(doc, context, 0, include_comments, &mut entries)
    } else {
        collect(doc, context, 0, include_comments, &mut entries)
    };
    match walked {
        Ok(()) => {
            proof {
                if context_node_only {
                    assert(entry_views(entries@) =~= own_entries(
                        doc@,
                        context as int,
                        0,
                        include_comments,
                    ));
                } else {
                    assert(entry_views(entries@) =~= node_entries(
                        doc@,
                        context as int,
                        0,
                        include_comments,
                    ));
                }
            }
            Ok(NodeSet { entries })
        },
        Err(e) => Err(e),
    }
}

} // verus!
