//! What leaves the selection of a subtree, and with it its digest, as it
//! is: a comment that is put into the document, and another order of the
//! attributes and namespace declarations of its elements.
use vstd::prelude::*;
use crate::document::{
    NodeKind,
    NodeView,
    is_element,
    node_fits,
    well_formed,
    with_comment,
};
use vstd::seq_lib::{lemma_multiset_commutative, to_multiset_contains};
use crate::document::NamespaceView;
use crate::nodeset::{
    binds,
    children_entries,
    children_supported,
    declares,
    declaring,
    namespace_axis,
    node_entries,
    node_supported,
    not_hidden_by,
    own_entries,
    selection,
    visible_declarations,
};
use crate::order::lemma_canonical_order_of_permutation;
use crate::permutation::{lemma_filter_count, lemma_map_permutation};
use crate::node_hash;

verus! {

/// A comment put among the children of an element changes nothing about the
/// nodes that were there, but for the children of that element.
proof fn lemma_comment_keeps_nodes(
    nodes: Seq<NodeView>,
    parent: int,
    position: int,
    value: Seq<u8>,
    id: int,
)
    requires
        nodes.len() < usize::MAX,
        is_element(nodes, parent),
        0 <= position <= nodes[parent].children.len(),
        0 <= id < nodes.len(),
    ensures
        ({
            let after = with_comment(nodes, parent, position, value);
            &&& after.len() == nodes.len() + 1
            &&& after[id].kind == nodes[id].kind
            &&& after[id].prefix == nodes[id].prefix
            &&& after[id].local_name == nodes[id].local_name
            &&& after[id].namespace_uri == nodes[id].namespace_uri
            &&& after[id].value == nodes[id].value
            &&& after[id].parent == nodes[id].parent
            &&& after[id].attributes == nodes[id].attributes
            &&& after[id].namespaces == nodes[id].namespaces
            &&& id != parent ==> after[id].children == nodes[id].children
            &&& after[parent].children == nodes[parent].children.insert(
                position,
                nodes.len() as usize,
            )
            &&& after[nodes.len() as int].kind == NodeKind::Comment
            &&& after[nodes.len() as int].children.len() == 0
        }),
{
}

/// A comment put among the children of an element changes no declaration
/// that can be seen from a node that was there.
proof fn lemma_comment_keeps_declarations(
    nodes: Seq<NodeView>,
    parent: int,
    position: int,
    value: Seq<u8>,
    id: int,
)
    requires
        nodes.len() < usize::MAX,
        is_element(nodes, parent),
        0 <= position <= nodes[parent].children.len(),
        0 <= id < nodes.len(),
    ensures
        visible_declarations(with_comment(nodes, parent, position, value), id)
            == visible_declarations(nodes, id),
    decreases id,
{
    lemma_comment_keeps_nodes(nodes, parent, position, value, id);
    match nodes[id].parent {
        Some(p) => {
            if p < id {
                lemma_comment_keeps_declarations(nodes, parent, position, value, p as int);
            }
        },
        None => {},
    }
}

/// A comment put among the children of an element changes no entry that a
/// node that was there gives by itself.
proof fn lemma_comment_keeps_own_entries(
    nodes: Seq<NodeView>,
    parent: int,
    position: int,
    value: Seq<u8>,
    id: int,
    depth: usize,
    comments: bool,
)
    requires
        nodes.len() < usize::MAX,
        is_element(nodes, parent),
        0 <= position <= nodes[parent].children.len(),
        0 <= id < nodes.len(),
    ensures
        own_entries(with_comment(nodes, parent, position, value), id, depth, comments)
            == own_entries(nodes, id, depth, comments),
{
    lemma_comment_keeps_nodes(nodes, parent, position, value, id);
    lemma_comment_keeps_declarations(nodes, parent, position, value, id);
}

/// Where comments are left out, a comment put among the children of an
/// element changes neither the entries of the subtree of a node that was
/// there nor whether that subtree is supported.
proof fn lemma_comment_keeps_subtree(
    nodes: Seq<NodeView>,
    parent: int,
    position: int,
    value: Seq<u8>,
    id: int,
    depth: usize,
)
    requires
        well_formed(nodes),
        nodes.len() < usize::MAX,
        is_element(nodes, parent),
        0 <= position <= nodes[parent].children.len(),
        0 <= id < nodes.len(),
    ensures
        node_entries(with_comment(nodes, parent, position, value), id, depth, false)
            == node_entries(nodes, id, depth, false),
        node_supported(with_comment(nodes, parent, position, value), id) == node_supported(
            nodes,
            id,
        ),
    decreases nodes.len() - id, 1int, 0int,
{
    let after = with_comment(nodes, parent, position, value);
    lemma_comment_keeps_nodes(nodes, parent, position, value, id);
    lemma_comment_keeps_own_entries(nodes, parent, position, value, id, depth, false);
    let count = nodes[id].children.len() as int;
    let deeper = (depth + 1) as usize;
    if id == parent {
        lemma_comment_keeps_children(nodes, parent, position, value, id, count + 1, deeper);
    } else {
        lemma_comment_keeps_children(nodes, parent, position, value, id, count, deeper);
    }
}

/// The same for the first children of a node: under the element that took
/// the comment, one child more gives what one child fewer gave before.
proof fn lemma_comment_keeps_children(
    nodes: Seq<NodeView>,
    parent: int,
    position: int,
    value: Seq<u8>,
    id: int,
    count: int,
    depth: usize,
)
    requires
        well_formed(nodes),
        nodes.len() < usize::MAX,
        is_element(nodes, parent),
        0 <= position <= nodes[parent].children.len(),
        0 <= id < nodes.len(),
        0 <= count <= with_comment(nodes, parent, position, value)[id].children.len(),
    ensures
        ({
            let after = with_comment(nodes, parent, position, value);
            let before_count = if id == parent && count > position {
                count - 1
            } else {
                count
            };
            &&& children_entries(after, id, count, depth, false) == children_entries(
                nodes,
                id,
                before_count,
                depth,
                false,
            )
            &&& children_supported(after, id, count) == children_supported(nodes, id, before_count)
        }),
    decreases nodes.len() - id, 0int, count,
{
    let after = with_comment(nodes, parent, position, value);
    lemma_comment_keeps_nodes(nodes, parent, position, value, id);
    assert(node_fits(nodes, id));
    if count > 0 {
        lemma_comment_keeps_children(nodes, parent, position, value, id, count - 1, depth);
        let child = after[id].children[count - 1] as int;
        if id == parent && count - 1 == position {
            assert(child == nodes.len());
            assert(own_entries(after, child, depth, false) =~= Seq::empty());
            assert(children_entries(after, child, 0, (depth + 1) as usize, false)
                =~= Seq::empty());
            assert(node_entries(after, child, depth, false) =~= Seq::empty());
            assert(children_entries(after, id, count, depth, false) =~= children_entries(
                after,
                id,
                count - 1,
                depth,
                false,
            ));
            assert(children_supported(after, child, 0));
            assert(node_supported(after, child));
        } else {
            let k = if id == parent && count - 1 > position {
                count - 2
            } else {
                count - 1
            };
            assert(0 <= k < nodes[id].children.len());
            assert(child == nodes[id].children[k]);
            assert(id < child < nodes.len());
            lemma_comment_keeps_subtree(nodes, parent, position, value, child, depth);
            assert(children_entries(nodes, id, k + 1, depth, false) == children_entries(
                nodes,
                id,
                k,
                depth,
                false,
            ) + node_entries(nodes, child, depth, false));
            assert(children_entries(after, id, count, depth, false) == children_entries(
                after,
                id,
                count - 1,
                depth,
                false,
            ) + node_entries(after, child, depth, false));
            assert(children_supported(nodes, id, k + 1) == (children_supported(nodes, id, k)
                && node_supported(nodes, child)));
            assert(children_supported(after, id, count) == (children_supported(
                after,
                id,
                count - 1,
            ) && node_supported(after, child)));
        }
    }
}

/// Comment exclusion: where comments are left out, a comment put anywhere
/// among the children of any element changes nothing about what is selected
/// for a context node that was there, and so nothing about the digest of its
/// subtree.
pub proof fn lemma_comment_exclusion(
    nodes: Seq<NodeView>,
    parent: int,
    position: int,
    value: Seq<u8>,
    context: int,
    context_node_only: bool,
)
    requires
        well_formed(nodes),
        nodes.len() < usize::MAX,
        is_element(nodes, parent),
        0 <= position <= nodes[parent].children.len(),
        0 <= context < nodes.len(),
    ensures
        selection(with_comment(nodes, parent, position, value), context, false, context_node_only)
            == selection(nodes, context, false, context_node_only),
        node_hash(with_comment(nodes, parent, position, value), context) == node_hash(
            nodes,
            context,
        ),
{
    lemma_comment_keeps_nodes(nodes, parent, position, value, context);
    lemma_comment_keeps_own_entries(nodes, parent, position, value, context, 0, false);
    lemma_comment_keeps_subtree(nodes, parent, position, value, context, 0);
}

/// True when two nodes differ at most in the order in which their
/// attributes and their namespace declarations are given.
pub open spec fn same_but_for_order(a: NodeView, b: NodeView) -> bool {
    &&& a.kind == b.kind
    &&& a.prefix == b.prefix
    &&& a.local_name == b.local_name
    &&& a.namespace_uri == b.namespace_uri
    &&& a.value == b.value
    &&& a.parent == b.parent
    &&& a.children == b.children
    &&& a.attributes.to_multiset() == b.attributes.to_multiset()
    &&& a.namespaces.to_multiset() == b.namespaces.to_multiset()
}

/// True when two documents differ at most in the order in which the
/// attributes and the namespace declarations of their elements are given.
pub open spec fn reordered(a: Seq<NodeView>, b: Seq<NodeView>) -> bool {
    a.len() == b.len() && forall|i: int|
        0 <= i < a.len() ==> same_but_for_order(#[trigger] a[i], b[i])
}

/// Whether a prefix is declared does not depend on the order of the
/// declarations.
proof fn lemma_declares_reordered(x: Seq<NamespaceView>, y: Seq<NamespaceView>, prefix: Seq<u8>)
    requires
        x.to_multiset() == y.to_multiset(),
    ensures
        declares(x, prefix) == declares(y, prefix),
{
    if declares(x, prefix) {
        let k = choose|k: int| 0 <= k < x.len() && (#[trigger] x[k]).prefix == prefix;
        assert(x.contains(x[k]));
        to_multiset_contains(x, x[k]);
        to_multiset_contains(y, x[k]);
        let j = choose|j: int| 0 <= j < y.len() && y[j] == x[k];
        assert(y[j].prefix == prefix);
    }
    if declares(y, prefix) {
        let k = choose|k: int| 0 <= k < y.len() && (#[trigger] y[k]).prefix == prefix;
        assert(y.contains(y[k]));
        to_multiset_contains(y, y[k]);
        to_multiset_contains(x, y[k]);
        let j = choose|j: int| 0 <= j < x.len() && x[j] == y[k];
        assert(x[j].prefix == prefix);
    }
}

/// The declarations that can be seen from a node are the same, each as
/// often, in two documents that differ at most in order.
proof fn lemma_declarations_reordered(a: Seq<NodeView>, b: Seq<NodeView>, id: int)
    requires
        reordered(a, b),
    ensures
        visible_declarations(a, id).to_multiset() == visible_declarations(b, id).to_multiset(),
    decreases id,
{
    broadcast use vstd::multiset::group_multiset_axioms;

    if 0 <= id < a.len() {
        assert(same_but_for_order(a[id], b[id]));
        let own_a = a[id].namespaces;
        let own_b = b[id].namespaces;
        match a[id].parent {
            Some(p) => {
                if p < id {
                    lemma_declarations_reordered(a, b, p as int);
                    let seen_a = visible_declarations(a, p as int);
                    let seen_b = visible_declarations(b, p as int);
                    let kept_a = seen_a.filter(not_hidden_by(own_a));
                    let kept_b = seen_b.filter(not_hidden_by(own_b));
                    assert forall|d: NamespaceView|
                        kept_a.to_multiset().count(d) == kept_b.to_multiset().count(d) by {
                        lemma_filter_count(seen_a, not_hidden_by(own_a), d);
                        lemma_filter_count(seen_b, not_hidden_by(own_b), d);
                        lemma_declares_reordered(own_a, own_b, d.prefix);
                    }
                    assert(kept_a.to_multiset() =~= kept_b.to_multiset());
                    lemma_multiset_commutative(own_a, kept_a);
                    lemma_multiset_commutative(own_b, kept_b);
                }
            },
            None => {},
        }
    }
}

/// The namespaces in scope at a node, in canonical order, are the same in
/// two documents that differ at most in order.
proof fn lemma_axis_reordered(a: Seq<NodeView>, b: Seq<NodeView>, id: int)
    requires
        reordered(a, b),
    ensures
        namespace_axis(a, id) == namespace_axis(b, id),
{
    lemma_declarations_reordered(a, b, id);
    let seen_a = visible_declarations(a, id);
    let seen_b = visible_declarations(b, id);
    assert forall|d: NamespaceView|
        seen_a.filter(binds()).to_multiset().count(d) == seen_b.filter(
            binds(),
        ).to_multiset().count(d) by {
        lemma_filter_count(seen_a, binds(), d);
        lemma_filter_count(seen_b, binds(), d);
    }
    assert(seen_a.filter(binds()).to_multiset() =~= seen_b.filter(binds()).to_multiset());
    lemma_map_permutation(seen_a.filter(binds()), seen_b.filter(binds()), declaring());
    lemma_canonical_order_of_permutation(
        seen_a.filter(binds()).map_values(declaring()),
        seen_b.filter(binds()).map_values(declaring()),
    );
}

/// The entries that a node gives by itself are the same in two documents
/// that differ at most in order.
proof fn lemma_own_entries_reordered(
    a: Seq<NodeView>,
    b: Seq<NodeView>,
    id: int,
    depth: usize,
    comments: bool,
)
    requires
        reordered(a, b),
        0 <= id < a.len(),
    ensures
        own_entries(a, id, depth, comments) == own_entries(b, id, depth, comments),
{
    assert(same_but_for_order(a[id], b[id]));
    lemma_axis_reordered(a, b, id);
    lemma_canonical_order_of_permutation(a[id].attributes, b[id].attributes);
}

/// The entries of a subtree, and whether it is supported, are the same in
/// two documents that differ at most in order.
proof fn lemma_subtree_reordered(
    a: Seq<NodeView>,
    b: Seq<NodeView>,
    id: int,
    depth: usize,
    comments: bool,
)
    requires
        reordered(a, b),
    ensures
        node_entries(a, id, depth, comments) == node_entries(b, id, depth, comments),
        node_supported(a, id) == node_supported(b, id),
    decreases a.len() - id, 1int, 0int,
{
    if 0 <= id < a.len() {
        assert(same_but_for_order(a[id], b[id]));
        lemma_own_entries_reordered(a, b, id, depth, comments);
        lemma_children_reordered(
            a,
            b,
            id,
            a[id].children.len() as int,
            (depth + 1) as usize,
            comments,
        );
    }
}

/// The same for the first children of a node.
proof fn lemma_children_reordered(
    a: Seq<NodeView>,
    b: Seq<NodeView>,
    id: int,
    count: int,
    depth: usize,
    comments: bool,
)
    requires
        reordered(a, b),
    ensures
        children_entries(a, id, count, depth, comments) == children_entries(
            b,
            id,
            count,
            depth,
            comments,
        ),
        children_supported(a, id, count) == children_supported(b, id, count),
    decreases a.len() - id, 0int, count,
{
    if 0 <= id < a.len() {
        assert(same_but_for_order(a[id], b[id]));
        if 0 < count <= a[id].children.len() {
            lemma_children_reordered(a, b, id, count - 1, depth, comments);
            let child = a[id].children[count - 1] as int;
            if id < child < a.len() {
                lemma_subtree_reordered(a, b, child, depth, comments);
            }
        }
    }
}

/// Order invariance: two documents that differ at most in the order in
/// which the attributes and the namespace declarations of their elements are
/// given have the same node set for every context node, hence the same
/// canonical bytes and the same digest.
pub proof fn lemma_order_invariance(
    a: Seq<NodeView>,
    b: Seq<NodeView>,
    context: int,
    include_comments: bool,
    context_node_only: bool,
)
    requires
        reordered(a, b),
    ensures
        selection(a, context, include_comments, context_node_only) == selection(
            b,
            context,
            include_comments,
            context_node_only,
        ),
        node_hash(a, context) == node_hash(b, context),
{
    if 0 <= context < a.len() {
        assert(same_but_for_order(a[context], b[context]));
        lemma_own_entries_reordered(a, b, context, 0, include_comments);
        lemma_subtree_reordered(a, b, context, 0, include_comments);
        lemma_subtree_reordered(a, b, context, 0, false);
    }
}

} // verus!
