//! The invariant of the node sets that the selector gives: no node is
//! selected twice, and what an element owns stands in canonical order.
use vstd::prelude::*;
use vstd::relations::sorted_by;
use crate::document::{NodeKind, NodeView, node_fits, well_formed};
use crate::nodeset::{
    EntryKind,
    EntryView,
    binds,
    children_entries,
    declaring,
    namespace_axis,
    node_entries,
    open_entry,
    own_entries,
    owned_entries,
    selection,
    visible_declarations,
};
use crate::order::{attribute_order, canonical_order, lemma_canonical_order};

verus! {

/// True for the kinds of entry that a node begins with: an element, text,
/// or a comment. Namespaces and attributes belong to their element.
pub open spec fn begins_node(kind: EntryKind) -> bool {
    kind == EntryKind::ElementOpen || kind == EntryKind::Text || kind == EntryKind::Comment
}

/// True when no node begins twice among the entries.
pub open spec fn no_node_twice(entries: Seq<EntryView>) -> bool {
    forall|i: int, j: int|
        0 <= i < j < entries.len() && begins_node(entries[i].kind) && begins_node(
            entries[j].kind,
        ) ==> entries[i].node != entries[j].node
}

/// True when node `x` is node `a` or lies below it.
pub open spec fn descends(nodes: Seq<NodeView>, x: int, a: int) -> bool
    decreases x,
{
    x == a || (0 <= x < nodes.len() && match nodes[x].parent {
        Some(p) => p < x && descends(nodes, p as int, a),
        None => false,
    })
}

/// A node stands at or behind every node that it lies below.
proof fn lemma_descends_behind(nodes: Seq<NodeView>, x: int, a: int)
    requires
        descends(nodes, x, a),
    ensures
        a <= x,
    decreases x,
{
    if x != a {
        lemma_descends_behind(nodes, nodes[x].parent.unwrap() as int, a);
    }
}

/// What lies below a child lies below its parent.
proof fn lemma_descends_from_parent(nodes: Seq<NodeView>, x: int, child: int, parent: int)
    requires
        descends(nodes, x, child),
        0 <= child < nodes.len(),
        nodes[child].parent == Some(parent as usize),
        0 <= parent < child,
        parent <= usize::MAX,
    ensures
        descends(nodes, x, parent),
    decreases x,
{
    if x == child {
        assert(descends(nodes, parent, parent));
    } else {
        lemma_descends_from_parent(nodes, nodes[x].parent.unwrap() as int, child, parent);
    }
}

/// No node lies below two children of one node.
proof fn lemma_children_apart(nodes: Seq<NodeView>, x: int, first: int, second: int, parent: int)
    requires
        first != second,
        0 <= parent < first < nodes.len(),
        parent < second < nodes.len(),
        nodes[first].parent == Some(parent as usize),
        nodes[second].parent == Some(parent as usize),
        parent <= usize::MAX,
        descends(nodes, x, first),
    ensures
        !descends(nodes, x, second),
    decreases x,
{
    if descends(nodes, x, second) {
        if x == first {
            assert(descends(nodes, parent, second));
            lemma_descends_behind(nodes, parent, second);
        } else if x == second {
            assert(descends(nodes, parent, first));
            lemma_descends_behind(nodes, parent, first);
        } else {
            lemma_children_apart(nodes, nodes[x].parent.unwrap() as int, first, second, parent);
        }
    }
}

/// True when every entry is for a node that lies below one of the first
/// `count` children of node `id`.
pub open spec fn below_children(
    nodes: Seq<NodeView>,
    entries: Seq<EntryView>,
    id: int,
    count: int,
) -> bool {
    forall|k: int|
        0 <= k < entries.len() ==> exists|m: int|
            0 <= m < count && descends(
                nodes,
                (#[trigger] entries[k]).node as int,
                #[trigger] nodes[id].children[m] as int,
            )
}

/// The entries of a subtree are for nodes of the subtree, and no node
/// begins twice among them.
proof fn lemma_subtree_distinct(nodes: Seq<NodeView>, id: int, depth: usize, comments: bool)
    requires
        well_formed(nodes),
        nodes.len() <= usize::MAX,
        0 <= id < nodes.len(),
    ensures
        no_node_twice(node_entries(nodes, id, depth, comments)),
        forall|k: int|
            0 <= k < node_entries(nodes, id, depth, comments).len() ==> descends(
                nodes,
                (#[trigger] node_entries(nodes, id, depth, comments)[k]).node as int,
                id,
            ),
    decreases nodes.len() - id, 1int, 0int,
{
    let node = nodes[id];
    let entries = node_entries(nodes, id, depth, comments);
    let own = own_entries(nodes, id, depth, comments);
    let count = node.children.len() as int;
    let deeper = (depth + 1) as usize;
    let inner = children_entries(nodes, id, count, deeper, comments);
    assert(entries == own + inner);
    assert(node_fits(nodes, id));
    lemma_children_distinct(nodes, id, count, deeper, comments);
    assert forall|k: int| 0 <= k < own.len() implies (#[trigger] own[k]).node == id && (k > 0
        ==> !begins_node(own[k].kind)) by {}
    assert forall|k: int| 0 <= k < entries.len() implies descends(
        nodes,
        (#[trigger] entries[k]).node as int,
        id,
    ) by {
        if k < own.len() {
            assert(entries[k] == own[k]);
        } else {
            let e = inner[k - own.len()];
            assert(entries[k] == e);
            let m = choose|m: int|
                0 <= m < count && descends(nodes, e.node as int, nodes[id].children[m] as int);
            let child = nodes[id].children[m] as int;
            lemma_descends_from_parent(nodes, e.node as int, child, id);
        }
    }
    assert forall|i: int, j: int|
        0 <= i < j < entries.len() && begins_node(entries[i].kind) && begins_node(
            entries[j].kind,
        ) implies entries[i].node != entries[j].node by {
        if j < own.len() {
            assert(entries[j] == own[j]);
        } else {
            let e = inner[j - own.len()];
            assert(entries[j] == e);
            if i < own.len() {
                assert(entries[i] == own[i]);
                let m = choose|m: int|
                    0 <= m < count && descends(nodes, e.node as int, nodes[id].children[m] as int);
                lemma_descends_behind(nodes, e.node as int, nodes[id].children[m] as int);
            } else {
                assert(entries[i] == inner[i - own.len()]);
            }
        }
    }
}

/// The same for the first children of a node.
proof fn lemma_children_distinct(
    nodes: Seq<NodeView>,
    id: int,
    count: int,
    depth: usize,
    comments: bool,
)
    requires
        well_formed(nodes),
        nodes.len() <= usize::MAX,
        0 <= id < nodes.len(),
        0 <= count <= nodes[id].children.len(),
    ensures
        no_node_twice(children_entries(nodes, id, count, depth, comments)),
        below_children(nodes, children_entries(nodes, id, count, depth, comments), id, count),
    decreases nodes.len() - id, 0int, count,
{
    let entries = children_entries(nodes, id, count, depth, comments);
    assert(node_fits(nodes, id));
    if count > 0 {
        let child = nodes[id].children[count - 1] as int;
        let before = children_entries(nodes, id, count - 1, depth, comments);
        let last = node_entries(nodes, child, depth, comments);
        assert(entries == before + last);
        lemma_children_distinct(nodes, id, count - 1, depth, comments);
        lemma_subtree_distinct(nodes, child, depth, comments);
        assert forall|k: int| 0 <= k < entries.len() implies exists|m: int|
            0 <= m < count && descends(
                nodes,
                (#[trigger] entries[k]).node as int,
                #[trigger] nodes[id].children[m] as int,
            ) by {
            if k < before.len() {
                assert(entries[k] == before[k]);
                let m = choose|m: int|
                    0 <= m < count - 1 && descends(
                        nodes,
                        before[k].node as int,
                        nodes[id].children[m] as int,
                    );
                assert(descends(nodes, entries[k].node as int, nodes[id].children[m] as int));
            } else {
                assert(entries[k] == last[k - before.len()]);
                assert(descends(
                    nodes,
                    entries[k].node as int,
                    nodes[id].children[count - 1] as int,
                ));
            }
        }
        assert forall|i: int, j: int|
            0 <= i < j < entries.len() && begins_node(entries[i].kind) && begins_node(
                entries[j].kind,
            ) implies entries[i].node != entries[j].node by {
            if j < before.len() {
                assert(entries[i] == before[i]);
                assert(entries[j] == before[j]);
            } else if i >= before.len() {
                assert(entries[i] == last[i - before.len()]);
                assert(entries[j] == last[j - before.len()]);
            } else {
                assert(entries[i] == before[i]);
                assert(entries[j] == last[j - before.len()]);
                let m = choose|m: int|
                    0 <= m < count - 1 && descends(
                        nodes,
                        before[i].node as int,
                        nodes[id].children[m] as int,
                    );
                let other = nodes[id].children[m] as int;
                assert(other != child);
                if entries[i].node == entries[j].node {
                    lemma_children_apart(nodes, entries[i].node as int, other, child, id);
                }
            }
        }
    }
}

/// No node is selected twice: among the entries that the selector gives
/// for a context node, no two that begin a node are for the same node.
pub proof fn lemma_selection_distinct(
    nodes: Seq<NodeView>,
    context: int,
    include_comments: bool,
    context_node_only: bool,
)
    requires
        well_formed(nodes),
        nodes.len() <= usize::MAX,
    ensures
        match selection(nodes, context, include_comments, context_node_only) {
            Ok(entries) => no_node_twice(entries),
            Err(_) => true,
        },
{
    if 0 <= context < nodes.len() {
        lemma_subtree_distinct(nodes, context, 0, include_comments);
        let own = own_entries(nodes, context, 0, include_comments);
        assert forall|k: int| 0 <= k < own.len() implies (k > 0 ==> !begins_node(
            (#[trigger] own[k]).kind,
        )) by {}
    }
}

/// What an element owns stands in canonical order: behind the entry of an
/// element come the namespaces in scope, sorted, and then its attributes,
/// sorted, each attribute as often as the element has it.
pub proof fn lemma_owned_in_order(nodes: Seq<NodeView>, id: int, depth: usize, comments: bool)
    requires
        0 <= id < nodes.len(),
        nodes[id].kind == NodeKind::Element,
    ensures
        own_entries(nodes, id, depth, comments) == seq![
            open_entry(nodes[id], id as usize, depth),
        ] + owned_entries(EntryKind::Namespace, namespace_axis(nodes, id), id as usize, depth)
            + owned_entries(
            EntryKind::Attribute,
            canonical_order(nodes[id].attributes),
            id as usize,
            depth,
        ),
        sorted_by(namespace_axis(nodes, id), attribute_order()),
        sorted_by(canonical_order(nodes[id].attributes), attribute_order()),
        canonical_order(nodes[id].attributes).to_multiset() == nodes[id].attributes.to_multiset(),
{
    lemma_canonical_order(nodes[id].attributes);
    lemma_canonical_order(
        visible_declarations(nodes, id).filter(binds()).map_values(declaring()),
    );
}

} // verus!
