//! The canonical text of a subtree, stated on the tree itself.
//!
//! The selector flattens a subtree into a node set and the canonicalizer
//! serializes the node set. This module says what the two give together: the
//! text of an element is its start tag, the texts of its children, and its
//! end tag.
use vstd::prelude::*;
use crate::canonical::{
    after,
    canonical_form,
    closing_tags,
    comment_text,
    end_tag,
    escaped_text,
    inherited_run,
    namespace_run,
    owned_by,
    rendering,
    run_length,
    start_tag,
};
use crate::document::{NodeKind, NodeView, node_fits, well_formed};
use crate::error::Error;
use crate::unique::begins_node;
use crate::nodeset::{
    EntryKind,
    EntryView,
    children_entries,
    content_entry,
    namespace_axis,
    node_entries,
    open_entry,
    own_entries,
    owned_entries,
    selection,
};
use crate::order::canonical_order;

verus! {

/// The entries for the namespaces in scope at element `id`.
pub open spec fn namespace_entries(nodes: Seq<NodeView>, id: int, depth: usize) -> Seq<EntryView> {
    owned_entries(EntryKind::Namespace, namespace_axis(nodes, id), id as usize, depth)
}

/// The entries for the attributes of element `id`.
pub open spec fn attribute_entries(nodes: Seq<NodeView>, id: int, depth: usize) -> Seq<EntryView> {
    owned_entries(
        EntryKind::Attribute,
        canonical_order(nodes[id].attributes),
        id as usize,
        depth,
    )
}

/// The canonical text of the subtree of node `id`. `enclosing` holds the
/// namespaces of the element that encloses the node in the output; it is
/// empty for the context node. An element is written as its start tag, the
/// texts of its children and its end tag; text and CDATA as their escaped
/// characters; a comment as its markup, where comments are included.
pub open spec fn subtree_text(
    nodes: Seq<NodeView>,
    id: int,
    depth: usize,
    enclosing: Seq<EntryView>,
    comments: bool,
) -> Seq<u8>
    decreases nodes.len() - id, 1int, 0int,
{
    if id < 0 || id >= nodes.len() {
        Seq::empty()
    } else {
        let node = nodes[id];
        match node.kind {
            NodeKind::Element => {
                let e = open_entry(node, id as usize, depth);
                let own = namespace_entries(nodes, id, depth);
                start_tag(e, own, enclosing, attribute_entries(nodes, id, depth)) + children_text(
                    nodes,
                    id,
                    node.children.len() as int,
                    (depth + 1) as usize,
                    own,
                    comments,
                ) + end_tag(e)
            },
            NodeKind::Text => escaped_text(node.value),
            NodeKind::CData => escaped_text(node.value),
            NodeKind::Comment => if comments {
                comment_text(content_entry(EntryKind::Comment, node, id as usize, depth))
            } else {
                Seq::empty()
            },
            NodeKind::Unsupported => Seq::empty(),
        }
    }
}

/// The canonical text of the subtree of a context node: nothing encloses
/// the context node, so that every namespace in scope at it is declared on
/// it.
pub open spec fn canonical_text(nodes: Seq<NodeView>, context: int, comments: bool) -> Seq<u8> {
    subtree_text(nodes, context, 0, Seq::empty(), comments)
}

/// The canonical texts of the first `count` children of node `id`, one
/// after the other.
pub open spec fn children_text(
    nodes: Seq<NodeView>,
    id: int,
    count: int,
    depth: usize,
    enclosing: Seq<EntryView>,
    comments: bool,
) -> Seq<u8>
    decreases nodes.len() - id, 0int, count,
{
    if id < 0 || id >= nodes.len() || count <= 0 || count > nodes[id].children.len() {
        Seq::empty()
    } else {
        let child = nodes[id].children[count - 1] as int;
        children_text(nodes, id, count - 1, depth, enclosing, comments) + if id < child
            < nodes.len() {
            subtree_text(nodes, child, depth, enclosing, comments)
        } else {
            Seq::empty()
        }
    }
}

/// True when the entries end at `at` or a node begins there.
pub open spec fn node_boundary(entries: Seq<EntryView>, at: int) -> bool {
    at >= entries.len() || begins_node(entries[at].kind)
}

/// A run of owned entries that stands in a node set, with no entry of its
/// kind and owner behind it, is found in full.
proof fn lemma_run_found(
    entries: Seq<EntryView>,
    start: int,
    kind: EntryKind,
    node: usize,
    depth: usize,
    count: int,
    done: int,
)
    requires
        0 <= start,
        0 <= done <= count,
        start + count <= entries.len(),
        forall|k: int|
            0 <= k < count ==> owned_by(#[trigger] entries[start + k], kind, node, depth),
        start + count == entries.len() || !owned_by(entries[start + count], kind, node, depth),
    ensures
        run_length(entries, start + done, kind, node, depth) == count - done,
    decreases count - done,
{
    if done < count {
        assert(owned_by(entries[start + done], kind, node, depth));
        lemma_run_found(entries, start, kind, node, depth, count, done + 1);
    }
}

/// Nothing is left to end where no more elements are open than are kept.
proof fn lemma_nothing_to_close(entries: Seq<EntryView>, open: Seq<usize>, keep: int)
    requires
        open.len() <= keep,
    ensures
        closing_tags(entries, open, keep) == Seq::<u8>::empty(),
{
}

/// Ending the open elements down to one level is ending them down to the
/// level above and then ending the element of that level.
proof fn lemma_close_one_more(entries: Seq<EntryView>, kept: Seq<usize>, rest: Seq<usize>)
    requires
        kept.len() > 0,
    ensures
        closing_tags(entries, kept + rest, kept.len() - 1) == closing_tags(
            entries,
            kept + rest,
            kept.len() as int,
        ) + end_tag(entries[kept.last() as int]),
    decreases rest.len(),
{
    let all = kept + rest;
    if rest.len() == 0 {
        assert(all =~= kept);
        assert(closing_tags(entries, kept.drop_last(), kept.len() - 1) =~= Seq::<u8>::empty());
        assert(closing_tags(entries, kept, kept.len() as int) =~= Seq::<u8>::empty());
        assert(closing_tags(entries, kept, kept.len() - 1) =~= end_tag(
            entries[kept.last() as int],
        ));
    } else {
        lemma_close_one_more(entries, kept, rest.drop_last());
        assert(all.drop_last() =~= kept + rest.drop_last());
        assert(all.last() == rest.last());
        assert(closing_tags(entries, all, kept.len() - 1) =~= end_tag(entries[all.last() as int])
            + closing_tags(entries, all.drop_last(), kept.len() - 1));
        assert(closing_tags(entries, all, kept.len() as int) =~= end_tag(
            entries[all.last() as int],
        ) + closing_tags(entries, all.drop_last(), kept.len() as int));
    }
}

/// The entries of a subtree are none, or begin with the entry of a node.
proof fn lemma_subtree_begins(nodes: Seq<NodeView>, id: int, depth: usize, comments: bool)
    requires
        well_formed(nodes),
        0 <= id < nodes.len(),
    ensures
        node_entries(nodes, id, depth, comments).len() > 0 ==> begins_node(
            node_entries(nodes, id, depth, comments)[0].kind,
        ),
{
    assert(node_fits(nodes, id));
    let own = own_entries(nodes, id, depth, comments);
    if nodes[id].kind != NodeKind::Element {
        assert(children_entries(
            nodes,
            id,
            nodes[id].children.len() as int,
            (depth + 1) as usize,
            comments,
        ) =~= Seq::empty());
    }
}

/// The entries of the first children of a node are none, or begin with the
/// entry of a node.
proof fn lemma_children_begin(
    nodes: Seq<NodeView>,
    id: int,
    count: int,
    depth: usize,
    comments: bool,
)
    requires
        well_formed(nodes),
        0 <= id < nodes.len(),
        0 <= count <= nodes[id].children.len(),
    ensures
        children_entries(nodes, id, count, depth, comments).len() > 0 ==> begins_node(
            children_entries(nodes, id, count, depth, comments)[0].kind,
        ),
    decreases count,
{
    if count > 0 {
        assert(node_fits(nodes, id));
        let child = nodes[id].children[count - 1] as int;
        lemma_children_begin(nodes, id, count - 1, depth, comments);
        lemma_subtree_begins(nodes, child, depth, comments);
    }
}

/// One piece of text before another before what follows.
proof fn lemma_after_twice(first: Seq<u8>, second: Seq<u8>, tail: Result<Seq<u8>, Error>)
    ensures
        after(first, after(second, tail)) == after(first + second, tail),
{
    match tail {
        Ok(rest) => {
            assert(first + (second + rest) =~= (first + second) + rest);
        },
        Err(_) => {},
    }
}

/// How an element entry is written, once the runs behind it are known.
proof fn lemma_render_element(entries: Seq<EntryView>, at: int, stack: Seq<usize>, n: int, a: int)
    requires
        0 <= at < entries.len(),
        entries[at].kind == EntryKind::ElementOpen,
        entries[at].depth <= stack.len(),
        n == run_length(
            entries,
            at + 1,
            EntryKind::Namespace,
            entries[at].node,
            entries[at].depth,
        ),
        a == run_length(
            entries,
            at + 1 + n,
            EntryKind::Attribute,
            entries[at].node,
            entries[at].depth,
        ),
    ensures
        rendering(entries, at, stack) == after(
            closing_tags(entries, stack, entries[at].depth as int) + start_tag(
                entries[at],
                entries.subrange(at + 1, at + 1 + n),
                inherited_run(entries, stack.take(entries[at].depth as int)),
                entries.subrange(at + 1 + n, at + 1 + n + a),
            ),
            rendering(
                entries,
                at + 1 + n + a,
                stack.take(entries[at].depth as int).push(at as usize),
            ),
        ),
{
    reveal(rendering);
}

/// How a text or comment entry is written.
proof fn lemma_render_content(entries: Seq<EntryView>, at: int, stack: Seq<usize>)
    requires
        0 <= at < entries.len(),
        entries[at].kind == EntryKind::Text || entries[at].kind == EntryKind::Comment,
        entries[at].depth <= stack.len(),
    ensures
        rendering(entries, at, stack) == after(
            closing_tags(entries, stack, entries[at].depth as int) + if entries[at].kind
                == EntryKind::Text {
                escaped_text(entries[at].value)
            } else {
                comment_text(entries[at])
            },
            rendering(entries, at + 1, stack.take(entries[at].depth as int)),
        ),
{
    reveal(rendering);
}

/// Nothing written before what follows is what follows.
proof fn lemma_after_nothing(tail: Result<Seq<u8>, Error>)
    ensures
        after(Seq::empty(), tail) == tail,
{
    match tail {
        Ok(rest) => {
            assert(Seq::<u8>::empty() + rest =~= rest);
        },
        Err(_) => {},
    }
}

/// Where the entries of an element and its subtree stand in a node set:
/// the element's entry, its namespaces, its attributes, and then the
/// entries of its children, up to a place where a node begins.
proof fn lemma_element_layout(
    nodes: Seq<NodeView>,
    id: int,
    depth: usize,
    comments: bool,
    entries: Seq<EntryView>,
    at: int,
)
    requires
        well_formed(nodes),
        0 <= id < nodes.len(),
        nodes[id].kind == NodeKind::Element,
        0 <= at,
        at + node_entries(nodes, id, depth, comments).len() <= entries.len(),
        entries.subrange(at, at + node_entries(nodes, id, depth, comments).len()) == node_entries(
            nodes,
            id,
            depth,
            comments,
        ),
        node_boundary(entries, at + node_entries(nodes, id, depth, comments).len()),
    ensures
        ({
            let spaces = namespace_entries(nodes, id, depth);
            let attributes = attribute_entries(nodes, id, depth);
            let inner = children_entries(
                nodes,
                id,
                nodes[id].children.len() as int,
                (depth + 1) as usize,
                comments,
            );
            let n = spaces.len() as int;
            let a = attributes.len() as int;
            let base = at + 1 + n + a;
            &&& node_entries(nodes, id, depth, comments).len() == 1 + n + a + inner.len()
            &&& entries[at] == open_entry(nodes[id], id as usize, depth)
            &&& entries.subrange(at + 1, at + 1 + n) == spaces
            &&& entries.subrange(at + 1 + n, base) == attributes
            &&& entries.subrange(base, base + inner.len()) == inner
            &&& run_length(entries, at + 1, EntryKind::Namespace, id as usize, depth) == n
            &&& run_length(entries, at + 1 + n, EntryKind::Attribute, id as usize, depth) == a
            &&& node_boundary(entries, base + inner.len())
        }),
{
    let node = nodes[id];
    let segment = node_entries(nodes, id, depth, comments);
    let e = open_entry(node, id as usize, depth);
    let spaces = namespace_entries(nodes, id, depth);
    let attributes = attribute_entries(nodes, id, depth);
    let count = node.children.len() as int;
    let deeper = (depth + 1) as usize;
    let inner = children_entries(nodes, id, count, deeper, comments);
    let n = spaces.len() as int;
    let a = attributes.len() as int;
    let base = at + 1 + n + a;
    assert(segment =~= seq![e] + spaces + attributes + inner);
    assert forall|k: int| 0 <= k < segment.len() implies entries[at + k] == segment[k] by {
        assert(entries.subrange(at, at + segment.len())[k] == entries[at + k]);
    }
    assert(entries[at + 0] == segment[0]);
    assert forall|k: int| 0 <= k < n implies owned_by(
        #[trigger] entries[at + 1 + k],
        EntryKind::Namespace,
        id as usize,
        depth,
    ) && entries[at + 1 + k] == spaces[k] by {
        assert(entries[at + (1 + k)] == segment[1 + k]);
    }
    assert forall|k: int| 0 <= k < a implies owned_by(
        #[trigger] entries[at + 1 + n + k],
        EntryKind::Attribute,
        id as usize,
        depth,
    ) && entries[at + 1 + n + k] == attributes[k] by {
        assert(entries[at + (1 + n + k)] == segment[1 + n + k]);
    }
    assert forall|k: int| 0 <= k < inner.len() implies entries[base + k] == inner[k] by {
        assert(entries[at + (1 + n + a + k)] == segment[1 + n + a + k]);
    }
    lemma_children_begin(nodes, id, count, deeper, comments);
    assert(node_boundary(entries, base)) by {
        if inner.len() > 0 {
            assert(entries[base + 0] == inner[0]);
        }
    }
    assert(at + 1 + n == entries.len() || !owned_by(
        entries[at + 1 + n],
        EntryKind::Namespace,
        id as usize,
        depth,
    )) by {
        if a > 0 {
            assert(owned_by(entries[at + 1 + n + 0], EntryKind::Attribute, id as usize, depth));
        }
    }
    lemma_run_found(entries, at + 1, EntryKind::Namespace, id as usize, depth, n, 0);
    lemma_run_found(entries, at + 1 + n, EntryKind::Attribute, id as usize, depth, a, 0);
    assert(entries.subrange(at + 1, at + 1 + n) =~= spaces) by {
        assert forall|k: int| 0 <= k < n implies entries.subrange(at + 1, at + 1 + n)[k]
            == spaces[k] by {
            assert(entries[at + 1 + k] == spaces[k]);
        }
    }
    assert(entries.subrange(at + 1 + n, base) =~= attributes) by {
        assert forall|k: int| 0 <= k < a implies entries.subrange(at + 1 + n, base)[k]
            == attributes[k] by {
            assert(entries[at + 1 + n + k] == attributes[k]);
        }
    }
    assert(entries.subrange(base, base + inner.len()) =~= inner);
}

/// What an element leaves to be ended: its open descendants, and itself.
proof fn lemma_element_text(
    closed: Seq<u8>,
    tag: Seq<u8>,
    written: Seq<u8>,
    closing_inner: Seq<u8>,
    end: Seq<u8>,
    inner_text: Seq<u8>,
)
    requires
        written + closing_inner == inner_text,
    ensures
        (closed + tag + written) + (closing_inner + end) == closed + (tag + inner_text + end),
{
    assert((closed + tag + written) + (closing_inner + end) =~= closed + (tag + (written
        + closing_inner) + end));
}

/// Writing the node set of a subtree gives the canonical text of the
/// subtree. The entries of the subtree of node `id` stand in `entries` from
/// `at` on; the elements at `kept` enclose the node, and those at `left`
/// are still open from what was written before. The lemma returns what is
/// written for the entries of the subtree and which elements they leave
/// open: ending those gives, after the end of the elements that were left
/// open before, the canonical text.
proof fn lemma_render_node(
    nodes: Seq<NodeView>,
    id: int,
    depth: usize,
    enclosing: Seq<EntryView>,
    comments: bool,
    entries: Seq<EntryView>,
    at: int,
    kept: Seq<usize>,
    left: Seq<usize>,
) -> (r: (Seq<u8>, Seq<usize>))
    requires
        well_formed(nodes),
        nodes.len() <= usize::MAX,
        entries.len() <= usize::MAX,
        0 <= id < nodes.len(),
        depth <= id,
        kept.len() == depth,
        0 <= at,
        at + node_entries(nodes, id, depth, comments).len() <= entries.len(),
        entries.subrange(at, at + node_entries(nodes, id, depth, comments).len()) == node_entries(
            nodes,
            id,
            depth,
            comments,
        ),
        node_boundary(entries, at + node_entries(nodes, id, depth, comments).len()),
        inherited_run(entries, kept) == enclosing,
    ensures
        rendering(entries, at, kept + left) == after(
            r.0,
            rendering(
                entries,
                at + node_entries(nodes, id, depth, comments).len(),
                kept + r.1,
            ),
        ),
        r.0 + closing_tags(entries, kept + r.1, depth as int) == closing_tags(
            entries,
            kept + left,
            depth as int,
        ) + subtree_text(nodes, id, depth, enclosing, comments),
    decreases nodes.len() - id, 1int, 0int,
{
    let node = nodes[id];
    let segment = node_entries(nodes, id, depth, comments);
    let count = node.children.len() as int;
    let deeper = (depth + 1) as usize;
    let stack = kept + left;
    let closed = closing_tags(entries, stack, depth as int);
    let none = Seq::<usize>::empty();
    assert(node_fits(nodes, id));
    assert(stack.take(depth as int) =~= kept);
    if node.kind == NodeKind::Element {
        let e = open_entry(node, id as usize, depth);
        let spaces = namespace_entries(nodes, id, depth);
        let attributes = attribute_entries(nodes, id, depth);
        let inner = children_entries(nodes, id, count, deeper, comments);
        let n = spaces.len() as int;
        let a = attributes.len() as int;
        let base = at + 1 + n + a;
        lemma_element_layout(nodes, id, depth, comments, entries, at);
        let inside = kept.push(at as usize);
        let tag = start_tag(e, spaces, enclosing, attributes);
        lemma_render_element(entries, at, stack, n, a);
        assert(inherited_run(entries, inside) == spaces) by {
            assert(inside.last() == at);
            assert(namespace_run(entries, at) == entries.subrange(at + 1, at + 1 + n));
        }
        let (written, open) = lemma_render_children(
            nodes,
            id,
            count,
            deeper,
            spaces,
            comments,
            entries,
            base,
            inside,
            none,
        );
        assert(inside + none =~= inside);
        assert(kept + (seq![at as usize] + open) =~= inside + open);
        lemma_nothing_to_close(entries, inside, deeper as int);
        lemma_close_one_more(entries, inside, open);
        let after_inner = rendering(entries, base + inner.len(), inside + open);
        lemma_after_twice(closed + tag, written, after_inner);
        let inner_text = children_text(nodes, id, count, deeper, spaces, comments);
        let closing_inner = closing_tags(entries, inside + open, deeper as int);
        assert(written + closing_inner == inner_text) by {
            assert(Seq::<u8>::empty() + inner_text =~= inner_text);
        }
        lemma_element_text(closed, tag, written, closing_inner, end_tag(e), inner_text);
        (closed + tag + written, seq![at as usize] + open)
    } else {
        let own = own_entries(nodes, id, depth, comments);
        assert(children_entries(nodes, id, count, deeper, comments) =~= Seq::empty());
        assert(segment =~= own);
        if node.kind == NodeKind::Text || node.kind == NodeKind::CData || (node.kind
            == NodeKind::Comment && comments) {
            assert(segment.len() == 1);
            assert(entries[at] == segment[0]) by {
                assert(entries.subrange(at, at + segment.len())[0] == entries[at + 0]);
            }
            assert(kept + none =~= kept);
            lemma_nothing_to_close(entries, kept, depth as int);
            lemma_render_content(entries, at, stack);
            let piece = subtree_text(nodes, id, depth, enclosing, comments);
            assert(closed + piece + Seq::<u8>::empty() =~= closed + piece);
            (closed + piece, none)
        } else {
            assert(segment.len() == 0);
            lemma_after_nothing(rendering(entries, at, stack));
            assert(Seq::<u8>::empty() + closed =~= closed + subtree_text(
                nodes,
                id,
                depth,
                enclosing,
                comments,
            ));
            (Seq::<u8>::empty(), left)
        }
    }
}

/// Two pieces written one after the other leave open what the second
/// leaves open.
proof fn lemma_children_text(
    first_written: Seq<u8>,
    first_closing: Seq<u8>,
    last_written: Seq<u8>,
    last_closing: Seq<u8>,
    closed: Seq<u8>,
    first_text: Seq<u8>,
    last_text: Seq<u8>,
)
    requires
        first_written + first_closing == closed + first_text,
        last_written + last_closing == first_closing + last_text,
    ensures
        (first_written + last_written) + last_closing == closed + (first_text + last_text),
{
    assert((first_written + last_written) + last_closing =~= first_written + (last_written
        + last_closing));
    assert(first_written + (first_closing + last_text) =~= (first_written + first_closing)
        + last_text);
    assert((closed + first_text) + last_text =~= closed + (first_text + last_text));
}

/// Where the entries of the last of some children stand in a node set:
/// behind those of the children before it.
proof fn lemma_children_layout(
    nodes: Seq<NodeView>,
    id: int,
    count: int,
    depth: usize,
    comments: bool,
    entries: Seq<EntryView>,
    at: int,
)
    requires
        well_formed(nodes),
        0 <= id < nodes.len(),
        0 < count <= nodes[id].children.len(),
        0 <= at,
        at + children_entries(nodes, id, count, depth, comments).len() <= entries.len(),
        entries.subrange(at, at + children_entries(nodes, id, count, depth, comments).len())
            == children_entries(nodes, id, count, depth, comments),
        node_boundary(entries, at + children_entries(nodes, id, count, depth, comments).len()),
    ensures
        ({
            let child = nodes[id].children[count - 1] as int;
            let before = children_entries(nodes, id, count - 1, depth, comments);
            let last = node_entries(nodes, child, depth, comments);
            let middle = at + before.len();
            &&& id < child < nodes.len()
            &&& children_entries(nodes, id, count, depth, comments).len() == before.len()
                + last.len()
            &&& entries.subrange(at, middle) == before
            &&& entries.subrange(middle, middle + last.len()) == last
            &&& node_boundary(entries, middle)
        }),
{
    assert(node_fits(nodes, id));
    let segment = children_entries(nodes, id, count, depth, comments);
    let child = nodes[id].children[count - 1] as int;
    let before = children_entries(nodes, id, count - 1, depth, comments);
    let last = node_entries(nodes, child, depth, comments);
    let middle = at + before.len();
    assert(segment == before + last);
    assert forall|k: int| 0 <= k < segment.len() implies entries[at + k] == segment[k] by {
        assert(entries.subrange(at, at + segment.len())[k] == entries[at + k]);
    }
    assert forall|k: int| 0 <= k < before.len() implies entries[at + k] == before[k] by {
        assert(segment[k] == before[k]);
    }
    assert forall|k: int| 0 <= k < last.len() implies entries[middle + k] == last[k] by {
        assert(entries[at + (before.len() + k)] == segment[before.len() + k]);
    }
    assert(entries.subrange(at, middle) =~= before);
    assert(entries.subrange(middle, middle + last.len()) =~= last);
    lemma_subtree_begins(nodes, child, depth, comments);
    if last.len() > 0 {
        assert(entries[middle + 0] == last[0]);
    }
}

/// The same for the first children of a node, one after the other.
proof fn lemma_render_children(
    nodes: Seq<NodeView>,
    id: int,
    count: int,
    depth: usize,
    enclosing: Seq<EntryView>,
    comments: bool,
    entries: Seq<EntryView>,
    at: int,
    kept: Seq<usize>,
    left: Seq<usize>,
) -> (r: (Seq<u8>, Seq<usize>))
    requires
        well_formed(nodes),
        nodes.len() <= usize::MAX,
        entries.len() <= usize::MAX,
        0 <= id < nodes.len(),
        0 <= count <= nodes[id].children.len(),
        depth <= id + 1,
        kept.len() == depth,
        0 <= at,
        at + children_entries(nodes, id, count, depth, comments).len() <= entries.len(),
        entries.subrange(at, at + children_entries(nodes, id, count, depth, comments).len())
            == children_entries(nodes, id, count, depth, comments),
        node_boundary(entries, at + children_entries(nodes, id, count, depth, comments).len()),
        inherited_run(entries, kept) == enclosing,
    ensures
        rendering(entries, at, kept + left) == after(
            r.0,
            rendering(
                entries,
                at + children_entries(nodes, id, count, depth, comments).len(),
                kept + r.1,
            ),
        ),
        r.0 + closing_tags(entries, kept + r.1, depth as int) == closing_tags(
            entries,
            kept + left,
            depth as int,
        ) + children_text(nodes, id, count, depth, enclosing, comments),
    decreases nodes.len() - id, 0int, count,
{
    let segment = children_entries(nodes, id, count, depth, comments);
    let closed = closing_tags(entries, kept + left, depth as int);
    if count == 0 {
        lemma_after_nothing(rendering(entries, at, kept + left));
        assert(Seq::<u8>::empty() + closed =~= closed + children_text(
            nodes,
            id,
            count,
            depth,
            enclosing,
            comments,
        ));
        (Seq::<u8>::empty(), left)
    } else {
        lemma_children_layout(nodes, id, count, depth, comments, entries, at);
        let child = nodes[id].children[count - 1] as int;
        let before = children_entries(nodes, id, count - 1, depth, comments);
        let last = node_entries(nodes, child, depth, comments);
        let middle = at + before.len();
        let (first_written, first_open) = lemma_render_children(
            nodes,
            id,
            count - 1,
            depth,
            enclosing,
            comments,
            entries,
            at,
            kept,
            left,
        );
        let (last_written, last_open) = lemma_render_node(
            nodes,
            child,
            depth,
            enclosing,
            comments,
            entries,
            middle,
            kept,
            first_open,
        );
        lemma_after_twice(first_written, last_written, rendering(
            entries,
            at + segment.len(),
            kept + last_open,
        ));
        lemma_children_text(
            first_written,
            closing_tags(entries, kept + first_open, depth as int),
            last_written,
            closing_tags(entries, kept + last_open, depth as int),
            closed,
            children_text(nodes, id, count - 1, depth, enclosing, comments),
            subtree_text(nodes, child, depth, enclosing, comments),
        );
        (first_written + last_written, last_open)
    }
}

/// What the selector and the canonicalizer give together: the node set of
/// a subtree is written as the canonical text of the subtree. It is never
/// refused for its structure.
pub proof fn lemma_rendering_of_subtree(nodes: Seq<NodeView>, context: int, comments: bool)
    requires
        well_formed(nodes),
        nodes.len() <= usize::MAX,
        0 <= context < nodes.len(),
        node_entries(nodes, context, 0, comments).len() <= usize::MAX,
    ensures
        rendering(node_entries(nodes, context, 0, comments), 0, Seq::empty()) == Ok::<
            Seq<u8>,
            Error,
        >(canonical_text(nodes, context, comments)),
{
    let entries = node_entries(nodes, context, 0, comments);
    let none = Seq::<usize>::empty();
    let text = subtree_text(nodes, context, 0, Seq::empty(), comments);
    assert(entries.subrange(0, 0 + entries.len() as int) =~= entries);
    let (written, open) = lemma_render_node(
        nodes,
        context,
        0,
        Seq::empty(),
        comments,
        entries,
        0,
        none,
        none,
    );
    assert(none + none =~= none);
    assert(rendering(entries, entries.len() as int, none + open) == Ok::<Seq<u8>, Error>(
        closing_tags(entries, none + open, 0),
    )) by {
        reveal(rendering);
    }
    assert(closing_tags(entries, none, 0) + text =~= text);
}

/// The canonical text of a node without what it contains: for an element
/// its start tag and its end tag.
pub open spec fn node_text(nodes: Seq<NodeView>, id: int, comments: bool) -> Seq<u8> {
    let node = nodes[id];
    match node.kind {
        NodeKind::Element => {
            let e = open_entry(node, id as usize, 0);
            start_tag(
                e,
                namespace_entries(nodes, id, 0),
                Seq::empty(),
                attribute_entries(nodes, id, 0),
            ) + end_tag(e)
        },
        NodeKind::Text => escaped_text(node.value),
        NodeKind::CData => escaped_text(node.value),
        NodeKind::Comment => if comments {
            comment_text(content_entry(EntryKind::Comment, node, id as usize, 0))
        } else {
            Seq::empty()
        },
        NodeKind::Unsupported => Seq::empty(),
    }
}

/// The node set of a context node alone is written as the canonical text
/// of the node without what it contains. It is never refused for its
/// structure.
pub proof fn lemma_rendering_of_node(nodes: Seq<NodeView>, context: int, comments: bool)
    requires
        0 <= context < nodes.len(),
        own_entries(nodes, context, 0, comments).len() <= usize::MAX,
    ensures
        rendering(own_entries(nodes, context, 0, comments), 0, Seq::empty()) == Ok::<
            Seq<u8>,
            Error,
        >(node_text(nodes, context, comments)),
{
    let node = nodes[context];
    let entries = own_entries(nodes, context, 0, comments);
    let none = Seq::<usize>::empty();
    let id = context as usize;
    assert(none.take(0) =~= none);
    if node.kind == NodeKind::Element {
        let e = open_entry(node, id, 0);
        let spaces = namespace_entries(nodes, context, 0);
        let attributes = attribute_entries(nodes, context, 0);
        let n = spaces.len() as int;
        let a = attributes.len() as int;
        assert(entries =~= seq![e] + spaces + attributes);
        assert forall|k: int| 0 <= k < n implies owned_by(
            #[trigger] entries[1 + k],
            EntryKind::Namespace,
            id,
            0,
        ) by {
            assert(entries[1 + k] == spaces[k]);
        }
        assert forall|k: int| 0 <= k < a implies owned_by(
            #[trigger] entries[1 + n + k],
            EntryKind::Attribute,
            id,
            0,
        ) by {
            assert(entries[1 + n + k] == attributes[k]);
        }
        assert(1 + n == entries.len() || !owned_by(entries[1 + n], EntryKind::Namespace, id, 0))
            by {
            if a > 0 {
                assert(owned_by(entries[1 + n + 0], EntryKind::Attribute, id, 0));
            }
        }
        lemma_run_found(entries, 1, EntryKind::Namespace, id, 0, n, 0);
        lemma_run_found(entries, 1 + n, EntryKind::Attribute, id, 0, a, 0);
        assert(entries.subrange(1, 1 + n) =~= spaces);
        assert(entries.subrange(1 + n, 1 + n + a) =~= attributes);
        lemma_render_element(entries, 0, none, n, a);
        let open = none.push(0usize);
        assert(rendering(entries, entries.len() as int, open) == Ok::<Seq<u8>, Error>(
            closing_tags(entries, open, 0),
        )) by {
            reveal(rendering);
        }
        assert(closing_tags(entries, open, 0) =~= end_tag(e)) by {
            assert(open.drop_last() =~= none);
            assert(closing_tags(entries, none, 0) =~= Seq::<u8>::empty());
        }
        assert(inherited_run(entries, none) =~= Seq::<EntryView>::empty());
        assert(closing_tags(entries, none, 0) + start_tag(
            e,
            spaces,
            Seq::<EntryView>::empty(),
            attributes,
        ) + end_tag(e) =~= node_text(nodes, context, comments));
    } else if entries.len() == 1 {
        lemma_render_content(entries, 0, none);
        assert(rendering(entries, 1, none) == Ok::<Seq<u8>, Error>(
            closing_tags(entries, none, 0),
        )) by {
            reveal(rendering);
        }
        assert(closing_tags(entries, none, 0) + node_text(nodes, context, comments)
            + closing_tags(entries, none, 0) =~= node_text(nodes, context, comments));
    } else {
        assert(entries.len() == 0);
        assert(rendering(entries, 0, none) == Ok::<Seq<u8>, Error>(
            closing_tags(entries, none, 0),
        )) by {
            reveal(rendering);
        }
        assert(closing_tags(entries, none, 0) =~= node_text(nodes, context, comments));
    }
}

/// What the selector gives is never refused for its structure: the
/// canonicalizer has no `ParseError` for a node set of the selector.
pub proof fn lemma_selection_consistent(
    nodes: Seq<NodeView>,
    context: int,
    include_comments: bool,
    context_node_only: bool,
)
    requires
        well_formed(nodes),
        nodes.len() <= usize::MAX,
    ensures
        match selection(nodes, context, include_comments, context_node_only) {
            Ok(entries) => entries.len() <= usize::MAX ==> canonical_form(entries) != Err::<
                Seq<u8>,
                Error,
            >(Error::ParseError),
            Err(_) => true,
        },
{
    match selection(nodes, context, include_comments, context_node_only) {
        Ok(entries) => {
            if entries.len() <= usize::MAX {
                if context_node_only {
                    lemma_rendering_of_node(nodes, context, include_comments);
                } else {
                    lemma_rendering_of_subtree(nodes, context, include_comments);
                }
            }
        },
        Err(_) => {},
    }
}

} // verus!
