//! The document model: an arena of nodes in which every child stands after
//! its parent.
use vstd::prelude::*;
use crate::bytes::copy_bytes;
use crate::error::Error;

verus! {

/// What a node of the tree is.
#[derive(Clone, Copy, Debug, PartialEq, Eq, Structural)]
pub enum NodeKind {
    /// An element, which owns attributes, namespace declarations and children.
    Element,
    /// Character data.
    Text,
    /// A CDATA section; it counts as the text it holds.
    CData,
    /// A comment.
    Comment,
    /// A construct that node sets do not take, such as a processing instruction.
    Unsupported,
}

/// An attribute of an element.
#[derive(Debug)]
pub struct Attribute {
    pub prefix: Vec<u8>,
    pub local_name: Vec<u8>,
    pub namespace_uri: Vec<u8>,
    pub value: Vec<u8>,
}

/// The value of an attribute.
pub struct AttributeView {
    pub prefix: Seq<u8>,
    pub local_name: Seq<u8>,
    pub namespace_uri: Seq<u8>,
    pub value: Seq<u8>,
}

impl View for Attribute {
    type V = AttributeView;

    open spec fn view(&self) -> AttributeView {
        AttributeView {
            prefix: self.prefix@,
            local_name: self.local_name@,
            namespace_uri: self.namespace_uri@,
            value: self.value@,
        }
    }
}

/// A namespace declaration on an element. The empty prefix declares the
/// default namespace, and an empty URI takes the prefix out of scope.
#[derive(Debug)]
pub struct NamespaceDeclaration {
    pub prefix: Vec<u8>,
    pub uri: Vec<u8>,
}

/// The value of a namespace declaration.
pub struct NamespaceView {
    pub prefix: Seq<u8>,
    pub uri: Seq<u8>,
}

impl View for NamespaceDeclaration {
    type V = NamespaceView;

    open spec fn view(&self) -> NamespaceView {
        NamespaceView { prefix: self.prefix@, uri: self.uri@ }
    }
}

/// The values of a list of attributes.
pub open spec fn attribute_views(items: Seq<Attribute>) -> Seq<AttributeView> {
    items.map_values(|a: Attribute| a@)
}

/// The values of a list of namespace declarations.
pub open spec fn namespace_views(items: Seq<NamespaceDeclaration>) -> Seq<NamespaceView> {
    items.map_values(|n: NamespaceDeclaration| n@)
}

/// A node of a document. An element has a name; text, CDATA sections and
/// comments have a value.
#[derive(Debug)]
pub struct Node {
    pub kind: NodeKind,
    pub prefix: Vec<u8>,
    pub local_name: Vec<u8>,
    pub namespace_uri: Vec<u8>,
    pub value: Vec<u8>,
    pub parent: Option<usize>,
    pub children: Vec<usize>,
    pub attributes: Vec<Attribute>,
    pub namespaces: Vec<NamespaceDeclaration>,
}

/// The value of a node.
pub struct NodeView {
    pub kind: NodeKind,
    pub prefix: Seq<u8>,
    pub local_name: Seq<u8>,
    pub namespace_uri: Seq<u8>,
    pub value: Seq<u8>,
    pub parent: Option<usize>,
    pub children: Seq<usize>,
    pub attributes: Seq<AttributeView>,
    pub namespaces: Seq<NamespaceView>,
}

impl View for Node {
    type V = NodeView;

    open spec fn view(&self) -> NodeView {
        NodeView {
            kind: self.kind,
            prefix: self.prefix@,
            local_name: self.local_name@,
            namespace_uri: self.namespace_uri@,
            value: self.value@,
            parent: self.parent,
            children: self.children@,
            attributes: attribute_views(self.attributes@),
            namespaces: namespace_views(self.namespaces@),
        }
    }
}

/// The values of a list of nodes.
pub open spec fn node_views(items: Seq<Node>) -> Seq<NodeView> {
    items.map_values(|n: Node| n@)
}

/// True when the children of node `i` stand behind it, name it as their
/// parent, and are listed once each.
pub open spec fn children_in_place(nodes: Seq<NodeView>, i: int) -> bool {
    let children = nodes[i].children;
    &&& forall|k: int|
        0 <= k < children.len() ==> i < #[trigger] children[k] < nodes.len()
            && nodes[children[k] as int].parent == Some(i as usize)
    &&& forall|j: int, k: int| 0 <= j < k < children.len() ==> children[j] != children[k]
}

/// True when node `i` fits into the tree: its parent is an element that
/// stands before it and lists it as a child, its children are in place, and
/// only an element owns anything.
pub open spec fn node_fits(nodes: Seq<NodeView>, i: int) -> bool {
    let node = nodes[i];
    &&& match node.parent {
        Some(p) => {
            &&& p < i
            &&& nodes[p as int].kind == NodeKind::Element
            &&& nodes[p as int].children.contains(i as usize)
        },
        None => true,
    }
    &&& children_in_place(nodes, i)
    &&& node.kind != NodeKind::Element ==> node.children.len() == 0 && node.attributes.len() == 0
        && node.namespaces.len() == 0
}

/// True when every node fits into the tree.
pub open spec fn well_formed(nodes: Seq<NodeView>) -> bool {
    forall|i: int| 0 <= i < nodes.len() ==> #[trigger] node_fits(nodes, i)
}

/// A node without children, attributes or namespace declarations.
pub open spec fn new_node(
    kind: NodeKind,
    prefix: Seq<u8>,
    local_name: Seq<u8>,
    namespace_uri: Seq<u8>,
    value: Seq<u8>,
    parent: Option<usize>,
) -> NodeView {
    NodeView {
        kind,
        prefix,
        local_name,
        namespace_uri,
        value,
        parent,
        children: Seq::empty(),
        attributes: Seq::empty(),
        namespaces: Seq::empty(),
    }
}

/// An element without children, attributes or namespace declarations.
pub open spec fn element_node(
    prefix: Seq<u8>,
    local_name: Seq<u8>,
    namespace_uri: Seq<u8>,
    parent: Option<usize>,
) -> NodeView {
    new_node(NodeKind::Element, prefix, local_name, namespace_uri, Seq::empty(), parent)
}

/// A node that is no element: it has a value and no name.
pub open spec fn content_node(kind: NodeKind, value: Seq<u8>, parent: Option<usize>) -> NodeView {
    new_node(kind, Seq::empty(), Seq::empty(), Seq::empty(), value, parent)
}

/// True when `parent` names an element that has at least `position`
/// children.
pub open spec fn takes_child_at(nodes: Seq<NodeView>, parent: int, position: int) -> bool {
    is_element(nodes, parent) && 0 <= position <= nodes[parent].children.len()
}

/// The nodes with child `child` put at `position` among the children of
/// `parent`.
pub open spec fn with_child_at(
    nodes: Seq<NodeView>,
    parent: int,
    position: int,
    child: usize,
) -> Seq<NodeView> {
    nodes.update(
        parent,
        NodeView { children: nodes[parent].children.insert(position, child), ..nodes[parent] },
    )
}

/// The nodes with `node` appended as the last child of `parent`, or as a
/// node without a parent.
pub open spec fn with_node(nodes: Seq<NodeView>, parent: Option<usize>, node: NodeView) -> Seq<
    NodeView,
> {
    match parent {
        Some(p) => with_child_at(
            nodes,
            p as int,
            nodes[p as int].children.len() as int,
            nodes.len() as usize,
        ).push(node),
        None => nodes.push(node),
    }
}

/// The nodes with a new comment put at `position` among the children of
/// `parent`.
pub open spec fn with_comment(
    nodes: Seq<NodeView>,
    parent: int,
    position: int,
    value: Seq<u8>,
) -> Seq<NodeView> {
    with_child_at(nodes, parent, position, nodes.len() as usize).push(
        content_node(NodeKind::Comment, value, Some(parent as usize)),
    )
}

/// Putting a fresh node at the end of the arena, at any place among the
/// children of an element, keeps the nodes well formed.
pub proof fn lemma_insert_well_formed(
    nodes: Seq<NodeView>,
    parent: int,
    position: int,
    node: NodeView,
)
    requires
        well_formed(nodes),
        nodes.len() < usize::MAX,
        0 <= parent < nodes.len(),
        nodes[parent].kind == NodeKind::Element,
        0 <= position <= nodes[parent].children.len(),
        node.parent == Some(parent as usize),
        node.children.len() == 0,
        node.kind != NodeKind::Element ==> node.attributes.len() == 0 && node.namespaces.len()
            == 0,
    ensures
        well_formed(with_child_at(nodes, parent, position, nodes.len() as usize).push(node)),
{
    let id = nodes.len() as usize;
    let after = with_child_at(nodes, parent, position, id).push(node);
    assert forall|i: int| 0 <= i < after.len() implies #[trigger] node_fits(after, i) by {
        if i == nodes.len() {
            assert(after[parent].children[position] == id);
        } else {
            assert(node_fits(nodes, i));
            let before_children = nodes[i].children;
            let children = after[i].children;
            match nodes[i].parent {
                Some(p) => {
                    let listed = nodes[p as int].children;
                    let m = choose|m: int| 0 <= m < listed.len() && listed[m] == i as usize;
                    if p == parent {
                        let moved = if m < position {
                            m
                        } else {
                            m + 1
                        };
                        assert(after[p as int].children[moved] == i as usize);
                    } else {
                        assert(after[p as int].children[m] == i as usize);
                    }
                },
                None => {},
            }
            assert forall|k: int| 0 <= k < children.len() implies i < #[trigger] children[k]
                < after.len() && after[children[k] as int].parent == Some(i as usize) by {
                if i == parent {
                    if k < position {
                        assert(children[k] == before_children[k]);
                    } else if k > position {
                        assert(children[k] == before_children[k - 1]);
                    }
                } else {
                    assert(children[k] == before_children[k]);
                }
            }
            assert forall|j: int, k: int| 0 <= j < k < children.len() implies children[j]
                != children[k] by {
                if i == parent {
                    let old_j = if j < position {
                        j
                    } else {
                        j - 1
                    };
                    let old_k = if k < position {
                        k
                    } else {
                        k - 1
                    };
                    if j != position && k != position {
                        assert(children[j] == before_children[old_j]);
                        assert(children[k] == before_children[old_k]);
                    } else if j == position {
                        assert(children[k] == before_children[old_k]);
                    } else {
                        assert(children[j] == before_children[old_j]);
                    }
                }
            }
        }
    }
}

/// Appending a fresh node keeps the nodes well formed.
pub proof fn lemma_with_node_well_formed(
    nodes: Seq<NodeView>,
    parent: Option<usize>,
    node: NodeView,
)
    requires
        well_formed(nodes),
        nodes.len() < usize::MAX,
        node.parent == parent,
        node.children.len() == 0,
        node.kind != NodeKind::Element ==> node.attributes.len() == 0 && node.namespaces.len()
            == 0,
        match parent {
            Some(p) => p < nodes.len() && nodes[p as int].kind == NodeKind::Element,
            None => true,
        },
    ensures
        well_formed(with_node(nodes, parent, node)),
{
    match parent {
        Some(p) => {
            lemma_insert_well_formed(nodes, p as int, nodes[p as int].children.len() as int, node);
        },
        None => {
            let after = nodes.push(node);
            assert forall|i: int| 0 <= i < after.len() implies #[trigger] node_fits(after, i) by {
                if i < nodes.len() {
                    assert(node_fits(nodes, i));
                }
            }
        },
    }
}

/// True when `id` names an element.
pub open spec fn is_element(nodes: Seq<NodeView>, id: int) -> bool {
    0 <= id < nodes.len() && nodes[id].kind == NodeKind::Element
}

/// True when a node can be put under `parent`: it names an element, or the
/// node is to have no parent.
pub open spec fn accepts_child(nodes: Seq<NodeView>, parent: Option<usize>) -> bool {
    match parent {
        Some(p) => is_element(nodes, p as int),
        None => true,
    }
}

/// True when `id` names an element without a parent.
pub open spec fn is_root_element(nodes: Seq<NodeView>, id: int) -> bool {
    is_element(nodes, id) && nodes[id].parent is None
}

/// The nodes with one more namespace declaration on `element`.
pub open spec fn with_namespace(nodes: Seq<NodeView>, element: int, d: NamespaceView) -> Seq<
    NodeView,
> {
    nodes.update(
        element,
        NodeView { namespaces: nodes[element].namespaces.push(d), ..nodes[element] },
    )
}

/// The nodes with one more attribute on `element`.
pub open spec fn with_attribute(nodes: Seq<NodeView>, element: int, a: AttributeView) -> Seq<
    NodeView,
> {
    nodes.update(
        element,
        NodeView { attributes: nodes[element].attributes.push(a), ..nodes[element] },
    )
}

/// What an element owns has no part in how the nodes hang together.
pub proof fn lemma_owned_well_formed(nodes: Seq<NodeView>, after: Seq<NodeView>, element: int)
    requires
        well_formed(nodes),
        is_element(nodes, element),
        after.len() == nodes.len(),
        forall|i: int| 0 <= i < nodes.len() && i != element ==> after[i] == nodes[i],
        after[element].kind == NodeKind::Element,
        after[element].parent == nodes[element].parent,
        after[element].children == nodes[element].children,
    ensures
        well_formed(after),
{
    assert forall|i: int| 0 <= i < after.len() implies #[trigger] node_fits(after, i) by {
        assert(node_fits(nodes, i));
        let children = after[i].children;
        assert forall|k: int| 0 <= k < children.len() implies i < #[trigger] children[k]
            < after.len() && after[children[k] as int].parent == Some(i as usize) by {
            assert(children[k] == nodes[i].children[k]);
        }
    }
}

/// Returns true when the children of node `i` stand behind it in the
/// list, name it as their parent, and are listed once each.
fn children_fit(nodes: &Vec<Node>, i: usize) -> (ok: bool)
    requires
        i < nodes@.len(),
    ensures
        ok == children_in_place(node_views(nodes@), i as int),
{
    let ghost all = node_views(nodes@);
    let node = &nodes[i];
    let ghost children = all[i as int].children;
    assert(children == node.children@);
    let mut k: usize = 0;
    while k < node.children.len()
        invariant
            i < nodes@.len(),
            all == node_views(nodes@),
            children == node.children@,
            children == all[i as int].children,
            k <= children.len(),
            forall|m: int|
                0 <= m < k ==> i < #[trigger] children[m] < all.len()
                    && all[children[m] as int].parent == Some(i),
            forall|j: int, m: int| 0 <= j < m < k ==> children[j] != children[m],
        decreases children.len() - k,
    {
        let child: usize = node.children[k];
        assert(children[k as int] == child);
        if child <= i || child >= nodes.len() {
            return false;
        }
        assert(all[child as int].parent == nodes@[child as int].parent);
        match nodes[child].parent {
            Some(p) => {
                if p != i {
                    return false;
                }
            },
            None => {
                return false;
            },
        }
        let mut j: usize = 0;
        while j < k
            invariant
                j <= k < children.len(),
                i < nodes@.len(),
                children == node.children@,
                children == node_views(nodes@)[i as int].children,
                child == children[k as int],
                forall|m: int| 0 <= m < j ==> children[m] != child,
            decreases k - j,
        {
            if node.children[j] == child {
                assert(children[j as int] == children[k as int]);
                return false;
            }
            j = j + 1;
        }
        k = k + 1;
    }
    true
}

/// Returns true when the list holds `id`.
fn lists(children: &Vec<usize>, id: usize) -> (found: bool)
    ensures
        found == children@.contains(id),
{
    let mut k: usize = 0;
    while k < children.len()
        invariant
            k <= children@.len(),
            forall|j: int| 0 <= j < k ==> children@[j] != id,
        decreases children@.len() - k,
    {
        if children[k] == id {
            return true;
        }
        k = k + 1;
    }
    false
}

/// Returns true when node `i` fits into the tree.
fn fits(nodes: &Vec<Node>, i: usize) -> (ok: bool)
    requires
        i < nodes@.len(),
    ensures
        ok == node_fits(node_views(nodes@), i as int),
{
    let ghost all = node_views(nodes@);
    let node = &nodes[i];
    assert(all[i as int] == node@);
    match node.parent {
        Some(p) => {
            if p >= i {
                return false;
            }
            assert(all[p as int].kind == nodes@[p as int].kind);
            if nodes[p].kind != NodeKind::Element {
                return false;
            }
            if !lists(&nodes[p].children, i) {
                return false;
            }
        },
        None => {},
    }
    if node.kind != NodeKind::Element && (node.children.len() != 0 || node.attributes.len() != 0
        || node.namespaces.len() != 0) {
        return false;
    }
    children_fit(nodes, i)
}

/// A parsed XML document. Nodes are named by their index.
#[derive(Debug)]
pub struct Document {
    nodes: Vec<Node>,
}

impl View for Document {
    type V = Seq<NodeView>;

    closed spec fn view(&self) -> Seq<NodeView> {
        node_views(self.nodes@)
    }
}

impl Document {
    /// The invariant of a document: its nodes form a forest in which every
    /// child stands after its parent.
    pub open spec fn wf(&self) -> bool {
        well_formed(self@)
    }

    /// Returns a document without nodes.
    pub fn new() -> (doc: Document)
        ensures
            doc.wf(),
            doc@.len() == 0,
    {
        Document { nodes: Vec::new() }
    }

    /// Makes a document of a list of nodes that name each other by their
    /// place in the list. Fails with `InvalidXml` where the nodes do not hang
    /// together as a tree: a parent or a child that the list does not hold
    /// or that stands on the wrong side of the node, a child that does not
    /// name the node as its parent or that is listed twice, a parent that is
    /// no element, or a node that is no element and owns something.
    pub fn from_nodes(nodes: Vec<Node>) -> (r: Result<Document, Error>)
        ensures
            match r {
                Ok(doc) => well_formed(node_views(nodes@)) && doc@ == node_views(nodes@)
                    && doc.wf(),
                Err(e) => !well_formed(node_views(nodes@)) && e == Error::InvalidXml,
            },
    {
        let mut i: usize = 0;
        while i < nodes.len()
            invariant
                i <= nodes@.len(),
                forall|k: int| 0 <= k < i ==> #[trigger] node_fits(node_views(nodes@), k),
            decreases nodes@.len() - i,
        {
            if !fits(&nodes, i) {
                return Err(Error::InvalidXml);
            }
            i = i + 1;
        }
        Ok(Document { nodes })
    }

    /// A document has no more nodes than a list holds.
    pub proof fn lemma_len_fits(&self)
        ensures
            self@.len() <= usize::MAX,
    {
        assert(self.nodes.len() == self.nodes@.len());
    }

    /// Returns the number of nodes.
    pub fn len(&self) -> (n: usize)
        ensures
            n == self@.len(),
    {
        self.nodes.len()
    }

    /// Returns node `id`; `None` where the document has no such node.
    pub fn node(&self, id: usize) -> (node: Option<&Node>)
        ensures
            match node {
                Some(n) => id < self@.len() && n@ == self@[id as int],
                None => id >= self@.len(),
            },
    {
        if id < self.nodes.len() {
            Some(&self.nodes[id])
        } else {
            None
        }
    }

    /// Returns node `id` of the document.
    pub(crate) fn node_at(&self, id: usize) -> (node: &Node)
        requires
            id < self@.len(),
        ensures
            node@ == self@[id as int],
    {
        &self.nodes[id]
    }

    /// Appends a node and, where it has a parent, makes it that parent's
    /// last child.
    fn append_node(
        &mut self,
        parent: Option<usize>,
        kind: NodeKind,
        prefix: &[u8],
        local_name: &[u8],
        namespace_uri: &[u8],
        value: &[u8],
    ) -> (id: usize)
        requires
            old(self).wf(),
            kind != NodeKind::Element ==> prefix@.len() == 0 && local_name@.len() == 0
                && namespace_uri@.len() == 0,
            match parent {
                Some(p) => p < old(self)@.len() && old(self)@[p as int].kind == NodeKind::Element,
                None => true,
            },
        ensures
            final(self).wf(),
            id == old(self)@.len(),
            final(self)@ == with_node(
                old(self)@,
                parent,
                new_node(kind, prefix@, local_name@, namespace_uri@, value@, parent),
            ),
    {
        let id: usize = self.nodes.len();
        let node = Node {
            kind,
            prefix: copy_bytes(prefix),
            local_name: copy_bytes(local_name),
            namespace_uri: copy_bytes(namespace_uri),
            value: copy_bytes(value),
            parent,
            children: Vec::new(),
            attributes: Vec::new(),
            namespaces: Vec::new(),
        };
        let ghost fresh = node@;
        assert(fresh =~= new_node(kind, prefix@, local_name@, namespace_uri@, value@, parent)) by {
            assert(fresh.attributes =~= Seq::empty());
            assert(fresh.namespaces =~= Seq::empty());
            assert(fresh.children =~= Seq::empty());
        }
        self.nodes.push(node);
        let total: usize = self.nodes.len();
        let ghost pushed = self.nodes@;
        assert(node_views(pushed) =~= old(self)@.push(fresh));
        match parent {
            Some(p) => {
                self.nodes[p].children.push(id);
                proof {
                    let before = old(self)@;
                    let target = with_node(before, parent, fresh);
                    assert(self.nodes@.len() == pushed.len());
                    assert(self.nodes@[p as int].children@ == pushed[p as int].children@.push(id));
                    assert(before[p as int].children.insert(
                        before[p as int].children.len() as int,
                        id,
                    ) =~= before[p as int].children.push(id));
                    assert forall|i: int| 0 <= i < target.len() implies self@[i] == target[i] by {
                        if i != p {
                            assert(self.nodes@[i] == pushed[i]);
                        }
                    }
                    assert(self@ =~= target);
                }
            },
            None => {},
        }
        proof {
            lemma_with_node_well_formed(old(self)@, parent, fresh);
        }
        id
    }

    /// Returns the first element without a parent: the root element.
    pub fn root_element(&self) -> (root: Option<usize>)
        ensures
            match root {
                Some(id) => is_root_element(self@, id as int) && forall|j: int|
                    0 <= j < id ==> !is_root_element(self@, j),
                None => forall|j: int| 0 <= j < self@.len() ==> !is_root_element(self@, j),
            },
    {
        let mut i: usize = 0;
        while i < self.nodes.len()
            invariant
                i <= self@.len(),
                self@.len() == self.nodes@.len(),
                forall|j: int| 0 <= j < i ==> !is_root_element(self@, j),
            decreases self@.len() - i,
        {
            let node = &self.nodes[i];
            assert(node@ == self@[i as int]);
            if node.parent.is_none() && node.kind == NodeKind::Element {
                return Some(i);
            }
            i = i + 1;
        }
        None
    }

    /// Adds an element as the last child of `parent`, or as a node without a
    /// parent, and returns its index. Fails with `InvalidXml`, and leaves the
    /// document as it is, where `parent` names no element.
    pub fn add_element(
        &mut self,
        parent: Option<usize>,
        prefix: &[u8],
        local_name: &[u8],
        namespace_uri: &[u8],
    ) -> (r: Result<usize, Error>)
        requires
            old(self).wf(),
        ensures
            final(self).wf(),
            match r {
                Ok(id) => {
                    &&& accepts_child(old(self)@, parent)
                    &&& id == old(self)@.len()
                    &&& final(self)@ == with_node(
                        old(self)@,
                        parent,
                        element_node(prefix@, local_name@, namespace_uri@, parent),
                    )
                },
                Err(e) => {
                    &&& !accepts_child(old(self)@, parent)
                    &&& e == Error::InvalidXml
                    &&& final(self)@ == old(self)@
                },
            },
    {
        if !self.can_hold(parent) {
            return Err(Error::InvalidXml);
        }
        let none: [u8; 0] = [];
        assert(none@ =~= Seq::<u8>::empty());
        Ok(
            self.append_node(
                parent,
                NodeKind::Element,
                prefix,
                local_name,
                namespace_uri,
                none.as_slice(),
            ),
        )
    }

    /// Adds a node that is no element as the last child of `parent`, or as a
    /// node without a parent, and returns its index. Fails with `InvalidXml`,
    /// and leaves the document as it is, where `parent` names no element or
    /// `kind` is the kind of elements.
    pub fn add_content(
        &mut self,
        parent: Option<usize>,
        kind: NodeKind,
        value: &[u8],
    ) -> (r: Result<usize, Error>)
        requires
            old(self).wf(),
        ensures
            final(self).wf(),
            match r {
                Ok(id) => {
                    &&& accepts_child(old(self)@, parent)
                    &&& kind != NodeKind::Element
                    &&& id == old(self)@.len()
                    &&& final(self)@ == with_node(
                        old(self)@,
                        parent,
                        content_node(kind, value@, parent),
                    )
                },
                Err(e) => {
                    &&& !(accepts_child(old(self)@, parent) && kind != NodeKind::Element)
                    &&& e == Error::InvalidXml
                    &&& final(self)@ == old(self)@
                },
            },
    {
        if kind == NodeKind::Element || !self.can_hold(parent) {
            return Err(Error::InvalidXml);
        }
        let none: [u8; 0] = [];
        assert(none@ =~= Seq::<u8>::empty());
        Ok(self.append_node(parent, kind, none.as_slice(), none.as_slice(), none.as_slice(), value))
    }

    /// Adds a text node under `parent`.
    pub fn add_text(&mut self, parent: Option<usize>, value: &[u8]) -> (r: Result<usize, Error>)
        requires
            old(self).wf(),
        ensures
            final(self).wf(),
            match r {
                Ok(id) => {
                    &&& accepts_child(old(self)@, parent)
                    &&& id == old(self)@.len()
                    &&& final(self)@ == with_node(
                        old(self)@,
                        parent,
                        content_node(NodeKind::Text, value@, parent),
                    )
                },
                Err(e) => {
                    &&& !accepts_child(old(self)@, parent)
                    &&& e == Error::InvalidXml
                    &&& final(self)@ == old(self)@
                },
            },
    {
        self.add_content(parent, NodeKind::Text, value)
    }

    /// Adds a comment under `parent`.
    pub fn add_comment(&mut self, parent: Option<usize>, value: &[u8]) -> (r: Result<usize, Error>)
        requires
            old(self).wf(),
        ensures
            final(self).wf(),
            match r {
                Ok(id) => {
                    &&& accepts_child(old(self)@, parent)
                    &&& id == old(self)@.len()
                    &&& final(self)@ == with_node(
                        old(self)@,
                        parent,
                        content_node(NodeKind::Comment, value@, parent),
                    )
                },
                Err(e) => {
                    &&& !accepts_child(old(self)@, parent)
                    &&& e == Error::InvalidXml
                    &&& final(self)@ == old(self)@
                },
            },
    {
        self.add_content(parent, NodeKind::Comment, value)
    }

    /// Puts a new comment at `position` among the children of `parent` and
    /// returns its index. Fails with `InvalidXml`, and leaves the document as
    /// it is, where `parent` names no element or has fewer than `position`
    /// children.
    pub fn insert_comment(&mut self, parent: usize, position: usize, value: &[u8]) -> (r: Result<
        usize,
        Error,
    >)
        requires
            old(self).wf(),
        ensures
            final(self).wf(),
            match r {
                Ok(id) => {
                    &&& takes_child_at(old(self)@, parent as int, position as int)
                    &&& id == old(self)@.len()
                    &&& final(self)@ == with_comment(
                        old(self)@,
                        parent as int,
                        position as int,
                        value@,
                    )
                },
                Err(e) => {
                    &&& !takes_child_at(old(self)@, parent as int, position as int)
                    &&& e == Error::InvalidXml
                    &&& final(self)@ == old(self)@
                },
            },
    {
        if !self.can_hold(Some(parent)) {
            return Err(Error::InvalidXml);
        }
        if position > self.nodes[parent].children.len() {
            return Err(Error::InvalidXml);
        }
        let id: usize = self.nodes.len();
        let node = Node {
            kind: NodeKind::Comment,
            prefix: Vec::new(),
            local_name: Vec::new(),
            namespace_uri: Vec::new(),
            value: copy_bytes(value),
            parent: Some(parent),
            children: Vec::new(),
            attributes: Vec::new(),
            namespaces: Vec::new(),
        };
        let ghost fresh = node@;
        let ghost before = self@;
        assert(fresh =~= new_node(
            NodeKind::Comment,
            Seq::empty(),
            Seq::empty(),
            Seq::empty(),
            value@,
            Some(parent),
        )) by {
            assert(fresh.attributes =~= Seq::empty());
            assert(fresh.namespaces =~= Seq::empty());
            assert(fresh.children =~= Seq::empty());
            assert(fresh.prefix =~= Seq::empty());
            assert(fresh.local_name =~= Seq::empty());
            assert(fresh.namespace_uri =~= Seq::empty());
        }
        self.nodes.push(node);
        let total: usize = self.nodes.len();
        let ghost pushed = self.nodes@;
        assert(node_views(pushed) =~= before.push(fresh));
        self.nodes[parent].children.insert(position, id);
        proof {
            let target = with_comment(before, parent as int, position as int, value@);
            assert(self.nodes@.len() == pushed.len());
            assert forall|i: int| 0 <= i < target.len() implies self@[i] == target[i] by {
                if i != parent {
                    assert(self.nodes@[i] == pushed[i]);
                }
            }
            assert(self@ =~= target);
            lemma_insert_well_formed(before, parent as int, position as int, fresh);
        }
        Ok(id)
    }

    /// Declares a namespace on an element: the prefix, empty for the default
    /// namespace, and the URI. Fails with `InvalidXml`, and leaves the
    /// document as it is, where `element` names no element.
    pub fn declare_namespace(&mut self, element: usize, prefix: &[u8], uri: &[u8]) -> (r: Result<
        (),
        Error,
    >)
        requires
            old(self).wf(),
        ensures
            final(self).wf(),
            match r {
                Ok(()) => {
                    &&& is_element(old(self)@, element as int)
                    &&& final(self)@ == with_namespace(
                        old(self)@,
                        element as int,
                        NamespaceView { prefix: prefix@, uri: uri@ },
                    )
                },
                Err(e) => {
                    &&& !is_element(old(self)@, element as int)
                    &&& e == Error::InvalidXml
                    &&& final(self)@ == old(self)@
                },
            },
    {
        if !self.can_hold(Some(element)) {
            return Err(Error::InvalidXml);
        }
        let ghost before = self@;
        let ghost nodes = self.nodes@;
        let declaration = NamespaceDeclaration { prefix: copy_bytes(prefix), uri: copy_bytes(uri) };
        self.nodes[element].namespaces.push(declaration);
        proof {
            let target = with_namespace(
                before,
                element as int,
                NamespaceView { prefix: prefix@, uri: uri@ },
            );
            assert(self.nodes@.len() == nodes.len());
            assert forall|i: int| 0 <= i < target.len() implies self@[i] == target[i] by {
                if i != element {
                    assert(self.nodes@[i] == nodes[i]);
                } else {
                    assert(self@[i].namespaces =~= target[i].namespaces);
                }
            }
            assert(self@ =~= target);
            lemma_owned_well_formed(before, target, element as int);
        }
        Ok(())
    }

    /// Adds an attribute to an element. Fails with `InvalidXml`, and leaves
    /// the document as it is, where `element` names no element.
    pub fn add_attribute(
        &mut self,
        element: usize,
        prefix: &[u8],
        local_name: &[u8],
        namespace_uri: &[u8],
        value: &[u8],
    ) -> (r: Result<(), Error>)
        requires
            old(self).wf(),
        ensures
            final(self).wf(),
            match r {
                Ok(()) => {
                    &&& is_element(old(self)@, element as int)
                    &&& final(self)@ == with_attribute(
                        old(self)@,
                        element as int,
                        AttributeView {
                            prefix: prefix@,
                            local_name: local_name@,
                            namespace_uri: namespace_uri@,
                            value: value@,
                        },
                    )
                },
                Err(e) => {
                    &&& !is_element(old(self)@, element as int)
                    &&& e == Error::InvalidXml
                    &&& final(self)@ == old(self)@
                },
            },
    {
        if !self.can_hold(Some(element)) {
            return Err(Error::InvalidXml);
        }
        let ghost before = self@;
        let ghost nodes = self.nodes@;
        let attribute = Attribute {
            prefix: copy_bytes(prefix),
            local_name: copy_bytes(local_name),
            namespace_uri: copy_bytes(namespace_uri),
            value: copy_bytes(value),
        };
        let ghost added = attribute@;
        self.nodes[element].attributes.push(attribute);
        proof {
            let target = with_attribute(before, element as int, added);
            assert(self.nodes@.len() == nodes.len());
            assert forall|i: int| 0 <= i < target.len() implies self@[i] == target[i] by {
                if i != element {
                    assert(self.nodes@[i] == nodes[i]);
                } else {
                    assert(self@[i].attributes =~= target[i].attributes);
                }
            }
            assert(self@ =~= target);
            lemma_owned_well_formed(before, target, element as int);
        }
        Ok(())
    }

    /// Returns true when a node can be put under `parent`.
    fn can_hold(&self, parent: Option<usize>) -> (yes: bool)
        ensures
            yes == accepts_child(self@, parent),
    {
        match parent {
            Some(p) => p < self.nodes.len() && self.nodes[p].kind == NodeKind::Element,
            None => true,
        }
    }
}

} // verus!
