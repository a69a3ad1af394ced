//! Inclusive canonicalization: the byte-exact serialization of a node set.
//!
//! An element is written as its start tag, what it contains, and its end
//! tag; it is never written as an empty-element tag. In the start tag the
//! namespace declarations come first and the attributes second, each in the
//! order of the node set. A namespace is declared only where the enclosing
//! element of the node set does not already declare it.
use vstd::prelude::*;
use vstd::utf8::valid_utf8;
use crate::bytes::{append, bytes_equal};
use crate::error::Error;
use crate::nodeset::{EntryKind, EntryView, NodeSet, NodeSetEntry, entry_views};
use crate::text::is_valid_utf8;

verus! {

/// How a byte of character data is written: `&`, `<` and `>` as their
/// entities, a carriage return as a line feed, any other byte as it is.
pub open spec fn text_escape(b: u8) -> Seq<u8> {
    if b == 38 {
        seq![38u8, 97, 109, 112, 59]
    } else if b == 60 {
        seq![38u8, 108, 116, 59]
    } else if b == 62 {
        seq![38u8, 103, 116, 59]
    } else if b == 13 {
        seq![10u8]
    } else {
        seq![b]
    }
}

/// How a byte of an attribute value is written: `&`, `<` and `"` as their
/// entities, tab, line feed and carriage return as the character references
/// `&#x9;`, `&#xA;` and `&#xD;`, any other byte as it is.
pub open spec fn attribute_escape(b: u8) -> Seq<u8> {
    if b == 38 {
        seq![38u8, 97, 109, 112, 59]
    } else if b == 60 {
        seq![38u8, 108, 116, 59]
    } else if b == 34 {
        seq![38u8, 113, 117, 111, 116, 59]
    } else if b == 9 {
        seq![38u8, 35, 120, 57, 59]
    } else if b == 10 {
        seq![38u8, 35, 120, 65, 59]
    } else if b == 13 {
        seq![38u8, 35, 120, 68, 59]
    } else {
        seq![b]
    }
}

/// Character data as it is written.
pub open spec fn escaped_text(value: Seq<u8>) -> Seq<u8>
    decreases value.len(),
{
    if value.len() == 0 {
        Seq::empty()
    } else {
        escaped_text(value.drop_last()) + text_escape(value.last())
    }
}

/// An attribute value as it is written between its quotes.
pub open spec fn escaped_attribute(value: Seq<u8>) -> Seq<u8>
    decreases value.len(),
{
    if value.len() == 0 {
        Seq::empty()
    } else {
        escaped_attribute(value.drop_last()) + attribute_escape(value.last())
    }
}

/// A name as it is written: the local name, after its prefix and a colon
/// where it has a prefix.
pub open spec fn qualified_name(prefix: Seq<u8>, local_name: Seq<u8>) -> Seq<u8> {
    if prefix.len() == 0 {
        local_name
    } else {
        prefix + seq![58u8] + local_name
    }
}

/// The declaration of a namespace in a start tag: ` xmlns="uri"` for the
/// default namespace, ` xmlns:prefix="uri"` for any other.
pub open spec fn namespace_text(e: EntryView) -> Seq<u8> {
    seq![32u8, 120, 109, 108, 110, 115] + if e.local_name.len() == 0 {
        Seq::empty()
    } else {
        seq![58u8] + e.local_name
    } + seq![61u8, 34] + escaped_attribute(e.value) + seq![34u8]
}

/// An attribute in a start tag: ` name="value"`.
pub open spec fn attribute_text(e: EntryView) -> Seq<u8> {
    seq![32u8] + qualified_name(e.prefix, e.local_name) + seq![61u8, 34] + escaped_attribute(
        e.value,
    ) + seq![34u8]
}

/// The text ` xmlns=""`, which takes the default namespace out of scope.
pub open spec fn undeclaration() -> Seq<u8> {
    seq![32u8, 120, 109, 108, 110, 115, 61, 34, 34]
}

/// A comment as it is written: `<!--`, its text, `-->`.
pub open spec fn comment_text(e: EntryView) -> Seq<u8> {
    seq![60u8, 33, 45, 45] + e.value + seq![45u8, 45, 62]
}

/// The end tag of an element.
pub open spec fn end_tag(e: EntryView) -> Seq<u8> {
    seq![60u8, 47] + qualified_name(e.prefix, e.local_name) + seq![62u8]
}

/// True when the entry belongs to the element that `node` names at `depth`
/// and is of kind `kind`.
pub open spec fn owned_by(e: EntryView, kind: EntryKind, node: usize, depth: usize) -> bool {
    e.kind == kind && e.node == node && e.depth == depth
}

/// The number of entries from `start` on, without a gap, that are of kind
/// `kind` and belong to the element that `node` names at `depth`.
pub open spec fn run_length(
    entries: Seq<EntryView>,
    start: int,
    kind: EntryKind,
    node: usize,
    depth: usize,
) -> nat
    decreases entries.len() - start,
{
    if 0 <= start < entries.len() && owned_by(entries[start], kind, node, depth) {
        1 + run_length(entries, start + 1, kind, node, depth)
    } else {
        0
    }
}

/// The namespace entries that follow the element entry at `at`.
pub open spec fn namespace_run(entries: Seq<EntryView>, at: int) -> Seq<EntryView> {
    entries.subrange(
        at + 1,
        at + 1 + run_length(
            entries,
            at + 1,
            EntryKind::Namespace,
            entries[at].node,
            entries[at].depth,
        ),
    )
}

/// The namespace entries of the innermost open element; none where no
/// element is open.
pub open spec fn inherited_run(entries: Seq<EntryView>, open: Seq<usize>) -> Seq<EntryView> {
    if open.len() == 0 {
        Seq::empty()
    } else {
        namespace_run(entries, open.last() as int)
    }
}

/// True when one of the namespace entries binds the prefix `local_name` to
/// `value`.
pub open spec fn declared_on(run: Seq<EntryView>, local_name: Seq<u8>, value: Seq<u8>) -> bool {
    exists|k: int|
        0 <= k < run.len() && (#[trigger] run[k]).local_name == local_name && run[k].value == value
}

/// True when one of the namespace entries is for the default namespace.
pub open spec fn declares_default(run: Seq<EntryView>) -> bool {
    exists|k: int| 0 <= k < run.len() && (#[trigger] run[k]).local_name.len() == 0
}

/// The declarations written for the first `count` namespace entries of an
/// element: one for every entry that the enclosing element does not hold
/// with the same prefix and URI.
pub open spec fn namespaces_text(run: Seq<EntryView>, inherited: Seq<EntryView>, count: int) -> Seq<
    u8,
>
    decreases count,
{
    if count <= 0 {
        Seq::empty()
    } else {
        let e = run[count - 1];
        namespaces_text(run, inherited, count - 1) + if declared_on(
            inherited,
            e.local_name,
            e.value,
        ) {
            Seq::empty()
        } else {
            namespace_text(e)
        }
    }
}

/// The first `count` attributes of an element as they are written.
pub open spec fn attributes_text(run: Seq<EntryView>, count: int) -> Seq<u8>
    decreases count,
{
    if count <= 0 {
        Seq::empty()
    } else {
        attributes_text(run, count - 1) + attribute_text(run[count - 1])
    }
}

/// The start tag of an element: its name; ` xmlns=""` where the enclosing
/// element has a default namespace and this one has none; its namespace
/// declarations; its attributes.
pub open spec fn start_tag(
    e: EntryView,
    namespaces: Seq<EntryView>,
    inherited: Seq<EntryView>,
    attributes: Seq<EntryView>,
) -> Seq<u8> {
    seq![60u8] + qualified_name(e.prefix, e.local_name) + if !declares_default(namespaces)
        && declares_default(inherited) {
        undeclaration()
    } else {
        Seq::empty()
    } + namespaces_text(namespaces, inherited, namespaces.len() as int) + attributes_text(
        attributes,
        attributes.len() as int,
    ) + seq![62u8]
}

/// The end tags of the open elements beyond the first `keep`, the innermost
/// first. `open` holds the places of the element entries that are open.
pub open spec fn closing_tags(entries: Seq<EntryView>, open: Seq<usize>, keep: int) -> Seq<u8>
    decreases open.len(),
{
    if open.len() <= keep || open.len() == 0 {
        Seq::empty()
    } else {
        end_tag(entries[open.last() as int]) + closing_tags(entries, open.drop_last(), keep)
    }
}

/// `head` before what follows, where anything follows.
pub open spec fn after(head: Seq<u8>, tail: Result<Seq<u8>, Error>) -> Result<Seq<u8>, Error> {
    match tail {
        Ok(rest) => Ok(head + rest),
        Err(e) => Err(e),
    }
}

/// The serialization of the entries from `i` on, while the elements whose
/// entries stand at `open` are open. An entry at depth `d` first ends all
/// open elements but the outermost `d`. It is an error for an entry to lie
/// deeper than the open elements reach, and for a namespace or an attribute
/// to stand anywhere but behind the element that owns it: namespaces first,
/// attributes second.
#[verifier::opaque]
pub open spec fn rendering(entries: Seq<EntryView>, i: int, open: Seq<usize>) -> Result<
    Seq<u8>,
    Error,
>
    decreases entries.len() - i,
    via rendering_ends
{
    if i < 0 {
        Err(Error::ParseError)
    } else if i >= entries.len() {
        Ok(closing_tags(entries, open, 0))
    } else {
        let e = entries[i];
        if e.depth > open.len() {
            Err(Error::ParseError)
        } else {
            let kept = open.take(e.depth as int);
            let closed = closing_tags(entries, open, e.depth as int);
            match e.kind {
                EntryKind::ElementOpen => {
                    let n = run_length(entries, i + 1, EntryKind::Namespace, e.node, e.depth);
                    let a = run_length(entries, i + 1 + n, EntryKind::Attribute, e.node, e.depth);
                    after(
                        closed + start_tag(
                            e,
                            entries.subrange(i + 1, i + 1 + n),
                            inherited_run(entries, kept),
                            entries.subrange(i + 1 + n, i + 1 + n + a),
                        ),
                        rendering(entries, i + 1 + n + a, kept.push(i as usize)),
                    )
                },
                EntryKind::Text => after(
                    closed + escaped_text(e.value),
                    rendering(entries, i + 1, kept),
                ),
                EntryKind::Comment => after(
                    closed + comment_text(e),
                    rendering(entries, i + 1, kept),
                ),
                EntryKind::Namespace => Err(Error::ParseError),
                EntryKind::Attribute => Err(Error::ParseError),
            }
        }
    }
}

/// A run ends where the entries end, at the latest.
pub proof fn lemma_run_length_bound(
    entries: Seq<EntryView>,
    start: int,
    kind: EntryKind,
    node: usize,
    depth: usize,
)
    requires
        0 <= start <= entries.len(),
    ensures
        start + run_length(entries, start, kind, node, depth) <= entries.len(),
    decreases entries.len() - start,
{
    if start < entries.len() && owned_by(entries[start], kind, node, depth) {
        lemma_run_length_bound(entries, start + 1, kind, node, depth);
    }
}

#[via_fn]
proof fn rendering_ends(entries: Seq<EntryView>, i: int, open: Seq<usize>) {
    if 0 <= i < entries.len() {
        let e = entries[i];
        let n = run_length(entries, i + 1, EntryKind::Namespace, e.node, e.depth);
        lemma_run_length_bound(entries, i + 1, EntryKind::Namespace, e.node, e.depth);
        lemma_run_length_bound(entries, i + 1 + n, EntryKind::Attribute, e.node, e.depth);
    }
}

/// The canonical form of a node set: its serialization, which has to be
/// well-formed UTF-8.
pub open spec fn canonical_form(entries: Seq<EntryView>) -> Result<Seq<u8>, Error> {
    match rendering(entries, 0, Seq::empty()) {
        Ok(bytes) => if valid_utf8(bytes) {
            Ok(bytes)
        } else {
            Err(Error::EncodingError)
        },
        Err(e) => Err(e),
    }
}

/// Appends character data as it is written.
fn write_text(out: &mut Vec<u8>, value: &[u8])
    ensures
        final(out)@ == old(out)@ + escaped_text(value@),
{
    let ghost base = out@;
    let mut i: usize = 0;
    assert(base + escaped_text(value@.take(0)) =~= base);
    while i < value.len()
        invariant
            i <= value@.len(),
            out@ == base + escaped_text(value@.take(i as int)),
        decreases value@.len() - i,
    {
        let b: u8 = value[i];
        let ghost before = out@;
        if b == 38 {
            let entity: [u8; 5] = [38, 97, 109, 112, 59];
            append(out, entity.as_slice());
            assert(entity@ =~= text_escape(b));
        } else if b == 60 {
            let entity: [u8; 4] = [38, 108, 116, 59];
            append(out, entity.as_slice());
            assert(entity@ =~= text_escape(b));
        } else if b == 62 {
            let entity: [u8; 4] = [38, 103, 116, 59];
            append(out, entity.as_slice());
            assert(entity@ =~= text_escape(b));
        } else if b == 13 {
            out.push(10);
            assert(out@ =~= before + text_escape(b));
        } else {
            out.push(b);
            assert(out@ =~= before + text_escape(b));
        }
        proof {
            assert(value@.take(i + 1).drop_last() =~= value@.take(i as int));
            assert(out@ =~= base + (escaped_text(value@.take(i as int)) + text_escape(b)));
        }
        i = i + 1;
    }
    assert(value@.take(i as int) =~= value@);
}

/// Appends an attribute value as it is written between its quotes.
fn write_value(out: &mut Vec<u8>, value: &[u8])
    ensures
        final(out)@ == old(out)@ + escaped_attribute(value@),
{
    let ghost base = out@;
    let mut i: usize = 0;
    assert(base + escaped_attribute(value@.take(0)) =~= base);
    while i < value.len()
        invariant
            i <= value@.len(),
            out@ == base + escaped_attribute(value@.take(i as int)),
        decreases value@.len() - i,
    {
        let b: u8 = value[i];
        let ghost before = out@;
        if b == 38 {
            let entity: [u8; 5] = [38, 97, 109, 112, 59];
            append(out, entity.as_slice());
            assert(entity@ =~= attribute_escape(b));
        } else if b == 60 {
            let entity: [u8; 4] = [38, 108, 116, 59];
            append(out, entity.as_slice());
            assert(entity@ =~= attribute_escape(b));
        } else if b == 34 {
            let entity: [u8; 6] = [38, 113, 117, 111, 116, 59];
            append(out, entity.as_slice());
            assert(entity@ =~= attribute_escape(b));
        } else if b == 9 {
            let entity: [u8; 5] = [38, 35, 120, 57, 59];
            append(out, entity.as_slice());
            assert(entity@ =~= attribute_escape(b));
        } else if b == 10 {
            let entity: [u8; 5] = [38, 35, 120, 65, 59];
            append(out, entity.as_slice());
            assert(entity@ =~= attribute_escape(b));
        } else if b == 13 {
            let entity: [u8; 5] = [38, 35, 120, 68, 59];
            append(out, entity.as_slice());
            assert(entity@ =~= attribute_escape(b));
        } else {
            out.push(b);
            assert(out@ =~= before + attribute_escape(b));
        }
        proof {
            assert(value@.take(i + 1).drop_last() =~= value@.take(i as int));
            assert(out@ =~= base + (escaped_attribute(value@.take(i as int)) + attribute_escape(
                b,
            )));
        }
        i = i + 1;
    }
    assert(value@.take(i as int) =~= value@);
}

/// Appends a name as it is written.
fn write_name(out: &mut Vec<u8>, prefix: &[u8], local_name: &[u8])
    ensures
        final(out)@ == old(out)@ + qualified_name(prefix@, local_name@),
{
    let ghost base = out@;
    if prefix.len() > 0 {
        append(out, prefix);
        out.push(58);
    }
    append(out, local_name);
    assert(out@ =~= base + qualified_name(prefix@, local_name@));
}

/// Appends the declaration of a namespace.
fn write_namespace(out: &mut Vec<u8>, e: &NodeSetEntry)
    ensures
        final(out)@ == old(out)@ + namespace_text(e@),
{
    let ghost base = out@;
    let xmlns: [u8; 6] = [32, 120, 109, 108, 110, 115];
    append(out, xmlns.as_slice());
    if e.local_name.len() > 0 {
        out.push(58);
        append(out, e.local_name.as_slice());
    }
    out.push(61);
    out.push(34);
    write_value(out, e.value.as_slice());
    out.push(34);
    assert(xmlns@ =~= seq![32u8, 120, 109, 108, 110, 115]);
    assert(out@ =~= base + namespace_text(e@));
}

/// Appends an attribute.
fn write_attribute(out: &mut Vec<u8>, e: &NodeSetEntry)
    ensures
        final(out)@ == old(out)@ + attribute_text(e@),
{
    let ghost base = out@;
    out.push(32);
    write_name(out, e.prefix.as_slice(), e.local_name.as_slice());
    out.push(61);
    out.push(34);
    write_value(out, e.value.as_slice());
    out.push(34);
    assert(out@ =~= base + attribute_text(e@));
}

/// Appends the end tag of an element.
fn write_end_tag(out: &mut Vec<u8>, e: &NodeSetEntry)
    ensures
        final(out)@ == old(out)@ + end_tag(e@),
{
    let ghost base = out@;
    out.push(60);
    out.push(47);
    write_name(out, e.prefix.as_slice(), e.local_name.as_slice());
    out.push(62);
    assert(out@ =~= base + end_tag(e@));
}

/// Returns the length of the run of entries from `start` on that are of
/// kind `kind` and belong to the element that `node` names at `depth`.
fn count_run(
    entries: &Vec<NodeSetEntry>,
    start: usize,
    kind: EntryKind,
    node: usize,
    depth: usize,
) -> (n: usize)
    requires
        start <= entries@.len(),
    ensures
        n == run_length(entries_view(entries), start as int, kind, node, depth),
        start + n <= entries@.len(),
{
    let ghost all = entries_view(entries);
    let mut end: usize = start;
    while end < entries.len() && entries[end].kind == kind && entries[end].node == node
        && entries[end].depth == depth
        invariant
            start <= end <= entries@.len(),
            all == entries_view(entries),
            run_length(all, start as int, kind, node, depth) == (end - start) + run_length(
                all,
                end as int,
                kind,
                node,
                depth,
            ),
        decreases entries@.len() - end,
    {
        assert(owned_by(all[end as int], kind, node, depth));
        end = end + 1;
    }
    assert(run_length(all, end as int, kind, node, depth) == 0);
    end - start
}

/// The values of the entries of a list.
pub open spec fn entries_view(entries: &Vec<NodeSetEntry>) -> Seq<EntryView> {
    entry_views(entries@)
}

/// Returns true when one of the `count` entries from `start` on binds the
/// prefix `local_name` to `value`.
fn holds_binding(
    entries: &Vec<NodeSetEntry>,
    start: usize,
    count: usize,
    local_name: &[u8],
    value: &[u8],
) -> (found: bool)
    requires
        start + count <= entries@.len(),
    ensures
        found == declared_on(
            entries_view(entries).subrange(start as int, start + count),
            local_name@,
            value@,
        ),
{
    let ghost run = entries_view(entries).subrange(start as int, start + count);
    let total: usize = entries.len();
    let mut k: usize = 0;
    while k < count
        invariant
            k <= count,
            start + count <= entries@.len() == total,
            run == entries_view(entries).subrange(start as int, start + count),
            forall|j: int|
                0 <= j < k ==> !((#[trigger] run[j]).local_name == local_name@ && run[j].value
                    == value@),
        decreases count - k,
    {
        let e = &entries[start + k];
        assert(run[k as int] == e@);
        if bytes_equal(e.local_name.as_slice(), local_name) && bytes_equal(
            e.value.as_slice(),
            value,
        ) {
            return true;
        }
        k = k + 1;
    }
    false
}

/// Returns true when one of the `count` entries from `start` on is for the
/// default namespace.
fn holds_default(entries: &Vec<NodeSetEntry>, start: usize, count: usize) -> (found: bool)
    requires
        start + count <= entries@.len(),
    ensures
        found == declares_default(entries_view(entries).subrange(start as int, start + count)),
{
    let ghost run = entries_view(entries).subrange(start as int, start + count);
    let total: usize = entries.len();
    let mut k: usize = 0;
    while k < count
        invariant
            k <= count,
            start + count <= entries@.len() == total,
            run == entries_view(entries).subrange(start as int, start + count),
            forall|j: int| 0 <= j < k ==> (#[trigger] run[j]).local_name.len() != 0,
        decreases count - k,
    {
        let e = &entries[start + k];
        assert(run[k as int] == e@);
        if e.local_name.len() == 0 {
            return true;
        }
        k = k + 1;
    }
    false
}

/// The namespace entries of the enclosing element, where there is one.
pub open spec fn enclosing_run(entries: Seq<EntryView>, parent: Option<usize>) -> Seq<EntryView> {
    match parent {
        Some(p) => namespace_run(entries, p as int),
        None => Seq::empty(),
    }
}

/// Appends the declarations for the `count` namespace entries from `start`
/// on, leaving out those that the `inherited_count` entries from `from` on
/// hold as well.
fn write_namespaces(
    out: &mut Vec<u8>,
    entries: &Vec<NodeSetEntry>,
    start: usize,
    count: usize,
    from: usize,
    inherited_count: usize,
)
    requires
        start + count <= entries@.len(),
        from + inherited_count <= entries@.len(),
    ensures
        final(out)@ == old(out)@ + namespaces_text(
            entries_view(entries).subrange(start as int, start + count),
            entries_view(entries).subrange(from as int, from + inherited_count),
            count as int,
        ),
{
    let ghost head = out@;
    let ghost all = entries_view(entries);
    let ghost own = all.subrange(start as int, start + count);
    let ghost inherited = all.subrange(from as int, from + inherited_count);
    let total: usize = entries.len();
    let mut k: usize = 0;
    assert(head + namespaces_text(own, inherited, 0) =~= head);
    while k < count
        invariant
            k <= count,
            start + count <= entries@.len() == total,
            from + inherited_count <= entries@.len(),
            all == entries_view(entries),
            own == all.subrange(start as int, start + count),
            inherited == all.subrange(from as int, from + inherited_count),
            out@ == head + namespaces_text(own, inherited, k as int),
        decreases count - k,
    {
        let n = &entries[start + k];
        assert(own[k as int] == n@);
        let ghost before = out@;
        if !holds_binding(
            entries,
            from,
            inherited_count,
            n.local_name.as_slice(),
            n.value.as_slice(),
        ) {
            write_namespace(out, n);
        } else {
            assert(out@ =~= before + Seq::<u8>::empty());
        }
        assert(out@ =~= head + namespaces_text(own, inherited, k + 1));
        k = k + 1;
    }
}

/// Appends the `count` attribute entries from `start` on.
fn write_attributes(out: &mut Vec<u8>, entries: &Vec<NodeSetEntry>, start: usize, count: usize)
    requires
        start + count <= entries@.len(),
    ensures
        final(out)@ == old(out)@ + attributes_text(
            entries_view(entries).subrange(start as int, start + count),
            count as int,
        ),
{
    let ghost head = out@;
    let ghost all = entries_view(entries);
    let ghost owned = all.subrange(start as int, start + count);
    let total: usize = entries.len();
    let mut j: usize = 0;
    assert(head + attributes_text(owned, 0) =~= head);
    while j < count
        invariant
            j <= count,
            start + count <= entries@.len() == total,
            all == entries_view(entries),
            owned == all.subrange(start as int, start + count),
            out@ == head + attributes_text(owned, j as int),
        decreases count - j,
    {
        let a = &entries[start + j];
        assert(owned[j as int] == a@);
        write_attribute(out, a);
        assert(out@ =~= head + attributes_text(owned, j + 1));
        j = j + 1;
    }
}

/// Appends the start tag of the element whose entry stands at `at`, with
/// `namespaces` namespace entries and then `attributes` attribute entries
/// behind it. `parent` is the place of the enclosing element's entry.
fn write_start_tag(
    out: &mut Vec<u8>,
    entries: &Vec<NodeSetEntry>,
    at: usize,
    namespaces: usize,
    attributes: usize,
    parent: Option<usize>,
)
    requires
        at + 1 + namespaces + attributes <= entries@.len(),
        match parent {
            Some(p) => p < entries@.len(),
            None => true,
        },
    ensures
        final(out)@ == old(out)@ + start_tag(
            entries_view(entries)[at as int],
            entries_view(entries).subrange(at + 1, at + 1 + namespaces),
            enclosing_run(entries_view(entries), parent),
            entries_view(entries).subrange(at + 1 + namespaces, at + 1 + namespaces + attributes),
        ),
{
    let ghost base = out@;
    let ghost all = entries_view(entries);
    let ghost own = all.subrange(at + 1, at + 1 + namespaces);
    let ghost inherited = enclosing_run(all, parent);
    let ghost owned = all.subrange(at + 1 + namespaces, at + 1 + namespaces + attributes);
    let total: usize = entries.len();
    let e = &entries[at];
    let (from, inherited_count): (usize, usize) = match parent {
        Some(p) => {
            let n: usize = count_run(
                entries,
                p + 1,
                EntryKind::Namespace,
                entries[p].node,
                entries[p].depth,
            );
            (p + 1, n)
        },
        None => (0, 0),
    };
    assert(inherited =~= all.subrange(from as int, from + inherited_count));
    out.push(60);
    assert(out@ =~= base + seq![60u8]);
    write_name(out, e.prefix.as_slice(), e.local_name.as_slice());
    let own_default = holds_default(entries, at + 1, namespaces);
    let inherited_default = holds_default(entries, from, inherited_count);
    let ghost undone = if !declares_default(own) && declares_default(inherited) {
        undeclaration()
    } else {
        Seq::<u8>::empty()
    };
    let ghost named = out@;
    if !own_default && inherited_default {
        let text: [u8; 9] = [32, 120, 109, 108, 110, 115, 61, 34, 34];
        append(out, text.as_slice());
        assert(text@ =~= undeclaration());
    } else {
        assert(out@ =~= named + undone);
    }
    write_namespaces(out, entries, at + 1, namespaces, from, inherited_count);
    write_attributes(out, entries, at + 1 + namespaces, attributes);
    let ghost listed = out@;
    out.push(62);
    proof {
        assert(out@ =~= listed + seq![62u8]);
        lemma_joined(
            base,
            seq![60u8],
            qualified_name(e@.prefix, e@.local_name),
            undone,
            namespaces_text(own, inherited, own.len() as int),
            attributes_text(owned, owned.len() as int),
            seq![62u8],
        );
    }
}

/// Six pieces written one after the other behind a text are the six pieces
/// joined, behind the text.
proof fn lemma_joined(
    base: Seq<u8>,
    a: Seq<u8>,
    b: Seq<u8>,
    c: Seq<u8>,
    d: Seq<u8>,
    e: Seq<u8>,
    f: Seq<u8>,
)
    ensures
        base + a + b + c + d + e + f == base + (a + b + c + d + e + f),
{
    assert(base + a + b + c + d + e + f =~= base + (a + b + c + d + e + f));
}

/// Ends the open elements beyond the first `keep`, the innermost first.
fn close_elements(
    out: &mut Vec<u8>,
    entries: &Vec<NodeSetEntry>,
    open: &mut Vec<usize>,
    keep: usize,
)
    requires
        keep <= old(open)@.len(),
        forall|k: int| 0 <= k < old(open)@.len() ==> old(open)@[k] < entries@.len(),
    ensures
        final(open)@ == old(open)@.take(keep as int),
        final(out)@ == old(out)@ + closing_tags(entries_view(entries), old(open)@, keep as int),
{
    let ghost base = out@;
    let ghost all = entries_view(entries);
    let ghost opened = open@;
    assert(open@ =~= opened.take(open@.len() as int));
    while open.len() > keep
        invariant
            keep <= open@.len() <= opened.len(),
            all == entries_view(entries),
            open@ == opened.take(open@.len() as int),
            forall|k: int| 0 <= k < opened.len() ==> opened[k] < entries@.len(),
            out@ + closing_tags(all, open@, keep as int) == base + closing_tags(
                all,
                opened,
                keep as int,
            ),
        decreases open@.len(),
    {
        let ghost before = out@;
        let ghost still = open@;
        let last: usize = open[open.len() - 1];
        open.pop();
        assert(open@ =~= still.drop_last());
        assert(last == opened[still.len() - 1]);
        write_end_tag(out, &entries[last]);
        proof {
            assert(open@ =~= opened.take(open@.len() as int));
            assert(before + closing_tags(all, still, keep as int) =~= out@ + closing_tags(
                all,
                open@,
                keep as int,
            ));
        }
    }
    assert(out@ + closing_tags(all, open@, keep as int) =~= out@);
}

/// Writes the entry at `i`, after the end tags of the elements that it
/// leaves, and returns the place of the next entry to write. An element
/// entry is written together with the namespaces and attributes behind it.
fn write_entry(
    out: &mut Vec<u8>,
    entries: &Vec<NodeSetEntry>,
    open: &mut Vec<usize>,
    i: usize,
) -> (r: Result<usize, Error>)
    requires
        i < entries@.len(),
        forall|k: int| 0 <= k < old(open)@.len() ==> old(open)@[k] < i,
    ensures
        match r {
            Ok(next) => {
                &&& i < next <= entries@.len()
                &&& forall|k: int| 0 <= k < final(open)@.len() ==> final(open)@[k] < next
                &&& old(out)@.len() <= final(out)@.len()
                &&& final(out)@.take(old(out)@.len() as int) == old(out)@
                &&& rendering(entries_view(entries), i as int, old(open)@) == after(
                    final(out)@.skip(old(out)@.len() as int),
                    rendering(entries_view(entries), next as int, final(open)@),
                )
            },
            Err(e) => rendering(entries_view(entries), i as int, old(open)@) == Err::<
                Seq<u8>,
                Error,
            >(e),
        },
{
    let ghost all = entries_view(entries);
    let ghost before = out@;
    let ghost opened = open@;
    let total: usize = entries.len();
    let e = &entries[i];
    assert(all[i as int] == e@);
    reveal(rendering);
    if e.depth > open.len() {
        return Err(Error::ParseError);
    }
    close_elements(out, entries, open, e.depth);
    let ghost closed = closing_tags(all, opened, e.depth as int);
    let ghost kept = open@;
    assert(out@ == before + closed);
    match e.kind {
        EntryKind::ElementOpen => {
            let n: usize = count_run(entries, i + 1, EntryKind::Namespace, e.node, e.depth);
            let a: usize = count_run(entries, i + 1 + n, EntryKind::Attribute, e.node, e.depth);
            let parent: Option<usize> = if open.len() > 0 {
                Some(open[open.len() - 1])
            } else {
                None
            };
            assert(enclosing_run(all, parent) == inherited_run(all, kept));
            write_start_tag(out, entries, i, n, a, parent);
            open.push(i);
            proof {
                let piece = start_tag(
                    e@,
                    all.subrange(i + 1, i + 1 + n),
                    inherited_run(all, kept),
                    all.subrange(i + 1 + n, i + 1 + n + a),
                );
                assert(out@ == before + closed + piece);
                assert(out@.skip(before.len() as int) =~= closed + piece);
                assert(out@.take(before.len() as int) =~= before);
            }
            Ok(i + 1 + n + a)
        },
        EntryKind::Text => {
            write_text(out, e.value.as_slice());
            proof {
                assert(out@.skip(before.len() as int) =~= closed + escaped_text(e@.value));
                assert(out@.take(before.len() as int) =~= before);
            }
            Ok(i + 1)
        },
        EntryKind::Comment => {
            let start: [u8; 4] = [60, 33, 45, 45];
            let end: [u8; 3] = [45, 45, 62];
            append(out, start.as_slice());
            append(out, e.value.as_slice());
            append(out, end.as_slice());
            proof {
                assert(start@ =~= seq![60u8, 33, 45, 45]);
                assert(end@ =~= seq![45u8, 45, 62]);
                assert(out@.skip(before.len() as int) =~= closed + comment_text(e@));
                assert(out@.take(before.len() as int) =~= before);
            }
            Ok(i + 1)
        },
        EntryKind::Namespace => Err(Error::ParseError),
        EntryKind::Attribute => Err(Error::ParseError),
    }
}

/// Serializes a node set in inclusive canonical form.
///
/// Fails with `ParseError` where the node set refers to its nodes
/// inconsistently, and with `EncodingError` where the bytes written are not
/// well-formed UTF-8.
pub fn canonicalize(set: &NodeSet) -> (r: Result<Vec<u8>, Error>)
    ensures
        match r {
            Ok(bytes) => canonical_form(set@) == Ok::<Seq<u8>, Error>(bytes@),
            Err(e) => canonical_form(set@) == Err::<Seq<u8>, Error>(e),
        },
{
    let entries = &set.entries;
    let ghost all = set@;
    let mut out: Vec<u8> = Vec::new();
    let mut open: Vec<usize> = Vec::new();
    let mut i: usize = 0;
    assert(open@ =~= Seq::<usize>::empty());
    proof {
        match rendering(all, 0, open@) {
            Ok(rest) => {
                assert(out@ + rest =~= rest);
            },
            Err(_) => {},
        }
    }
    while i < entries.len()
        invariant
            i <= entries@.len(),
            all == entries_view(entries),
            all == set@,
            forall|k: int| 0 <= k < open@.len() ==> open@[k] < i,
            rendering(all, 0, Seq::empty()) == after(out@, rendering(all, i as int, open@)),
        decreases entries@.len() - i,
    {
        let ghost before = out@;
        match write_entry(&mut out, entries, &mut open, i) {
            Ok(next) => {
                proof {
                    let piece = out@.skip(before.len() as int);
                    assert(out@ =~= before + piece);
                    match rendering(all, next as int, open@) {
                        Ok(rest) => {
                            assert(before + (piece + rest) =~= out@ + rest);
                        },
                        Err(_) => {},
                    }
                }
                i = next;
            },
            Err(e) => {
                return Err(e);
            },
        }
    }
    proof {
        reveal(rendering);
    }
    close_elements(&mut out, entries, &mut open, 0);
    if is_valid_utf8(out.as_slice()) {
        Ok(out)
    } else {
        Err(Error::EncodingError)
    }
}

} // verus!
