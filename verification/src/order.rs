//! The canonical order of the attributes of an element.
//!
//! An attribute without a prefix comes before every attribute with one.
//! Attributes that are alike in this are ordered by namespace URI first and
//! by local name second. Prefix and value break the remaining ties, which
//! makes the order total: a list has exactly one sorted arrangement.
use vstd::prelude::*;
use vstd::relations::*;
use vstd::seq_lib::*;
use crate::bytes::{
    bytes_at_most,
    bytes_equal,
    bytes_le,
    copy_bytes,
    lemma_bytes_le_antisymmetric,
    lemma_bytes_le_reflexive,
    lemma_bytes_le_total,
    lemma_bytes_le_transitive,
};
use crate::document::{Attribute, AttributeView, attribute_views};

verus! {

/// True when the attribute has a prefix.
pub open spec fn is_prefixed(x: AttributeView) -> bool {
    x.prefix.len() > 0
}

/// True when `x` comes before `y` in the canonical order, or equals it.
pub open spec fn attribute_le(x: AttributeView, y: AttributeView) -> bool {
    if is_prefixed(x) != is_prefixed(y) {
        !is_prefixed(x)
    } else if x.namespace_uri != y.namespace_uri {
        bytes_le(x.namespace_uri, y.namespace_uri)
    } else if x.local_name != y.local_name {
        bytes_le(x.local_name, y.local_name)
    } else if x.prefix != y.prefix {
        bytes_le(x.prefix, y.prefix)
    } else {
        bytes_le(x.value, y.value)
    }
}

/// The canonical order as a relation.
pub open spec fn attribute_order() -> spec_fn(AttributeView, AttributeView) -> bool {
    |x: AttributeView, y: AttributeView| attribute_le(x, y)
}

/// The sorted list `sorted` with `x` put in its place.
pub open spec fn insert_sorted(sorted: Seq<AttributeView>, x: AttributeView) -> Seq<AttributeView>
    decreases sorted.len(),
{
    if sorted.len() == 0 {
        seq![x]
    } else if attribute_le(sorted.last(), x) {
        sorted.push(x)
    } else {
        insert_sorted(sorted.drop_last(), x).push(sorted.last())
    }
}

/// The attributes in canonical order.
pub open spec fn canonical_order(items: Seq<AttributeView>) -> Seq<AttributeView>
    decreases items.len(),
{
    if items.len() == 0 {
        Seq::empty()
    } else {
        insert_sorted(canonical_order(items.drop_last()), items.last())
    }
}

/// How the canonical order reads. An attribute without a prefix comes
/// before every attribute with one, whatever their namespaces. Of two
/// attributes that both have a prefix, or both have none, the one with the
/// smaller namespace URI comes first, and with the same URI the one with
/// the smaller local name. Where, as in XML, an attribute has a namespace
/// exactly when it has a prefix, an attribute without a namespace so comes
/// before every attribute with one.
pub proof fn lemma_attribute_order_reads(x: AttributeView, y: AttributeView)
    ensures
        !is_prefixed(x) && is_prefixed(y) ==> attribute_le(x, y) && !attribute_le(y, x),
        is_prefixed(x) == is_prefixed(y) && x.namespace_uri != y.namespace_uri ==> (attribute_le(
            x,
            y,
        ) <==> bytes_le(x.namespace_uri, y.namespace_uri)),
        is_prefixed(x) == is_prefixed(y) && x.namespace_uri == y.namespace_uri && x.local_name
            != y.local_name ==> (attribute_le(x, y) <==> bytes_le(x.local_name, y.local_name)),
        (is_prefixed(x) <==> x.namespace_uri.len() > 0) && (is_prefixed(y)
            <==> y.namespace_uri.len() > 0) && x.namespace_uri.len() == 0 && y.namespace_uri.len()
            > 0 ==> attribute_le(x, y) && !attribute_le(y, x),
{
}

/// The canonical order is a total order.
pub proof fn lemma_attribute_order_total()
    ensures
        total_ordering(attribute_order()),
{
    let r = attribute_order();
    assert forall|x: AttributeView| #[trigger] r(x, x) by {
        lemma_bytes_le_reflexive(x.value, 0);
    }
    assert forall|x: AttributeView, y: AttributeView| #[trigger] r(x, y) && #[trigger] r(y, x)
        implies x == y by {
        if is_prefixed(x) != is_prefixed(y) {
        } else if x.namespace_uri != y.namespace_uri {
            lemma_bytes_le_antisymmetric(x.namespace_uri, y.namespace_uri, 0);
        } else if x.local_name != y.local_name {
            lemma_bytes_le_antisymmetric(x.local_name, y.local_name, 0);
        } else if x.prefix != y.prefix {
            lemma_bytes_le_antisymmetric(x.prefix, y.prefix, 0);
        } else {
            lemma_bytes_le_antisymmetric(x.value, y.value, 0);
        }
    }
    assert forall|x: AttributeView, y: AttributeView, z: AttributeView| #[trigger]
        r(x, y) && #[trigger] r(y, z) implies r(x, z) by {
        lemma_attribute_le_transitive(x, y, z);
    }
    assert forall|x: AttributeView, y: AttributeView| #[trigger] r(x, y) || #[trigger] r(y, x) by {
        lemma_attribute_le_total(x, y);
    }
}

/// Of two attributes one is at most the other.
pub proof fn lemma_attribute_le_total(x: AttributeView, y: AttributeView)
    ensures
        attribute_le(x, y) || attribute_le(y, x),
{
    lemma_bytes_le_total(x.namespace_uri, y.namespace_uri, 0);
    lemma_bytes_le_total(x.local_name, y.local_name, 0);
    lemma_bytes_le_total(x.prefix, y.prefix, 0);
    lemma_bytes_le_total(x.value, y.value, 0);
}

/// One step of the order after another is a step of the order.
pub proof fn lemma_attribute_le_transitive(x: AttributeView, y: AttributeView, z: AttributeView)
    requires
        attribute_le(x, y),
        attribute_le(y, z),
    ensures
        attribute_le(x, z),
{
    lemma_field_transitive(x.namespace_uri, y.namespace_uri, z.namespace_uri);
    lemma_field_transitive(x.local_name, y.local_name, z.local_name);
    lemma_field_transitive(x.prefix, y.prefix, z.prefix);
    lemma_field_transitive(x.value, y.value, z.value);
}

/// On one field: the order is transitive, and two strings that are each at
/// most the other are equal.
proof fn lemma_field_transitive(a: Seq<u8>, b: Seq<u8>, c: Seq<u8>)
    ensures
        bytes_le(a, b) && bytes_le(b, c) ==> bytes_le(a, c),
        bytes_le(a, b) && bytes_le(b, a) ==> a == b,
        bytes_le(b, c) && bytes_le(c, b) ==> b == c,
        bytes_le(a, a),
{
    if bytes_le(a, b) && bytes_le(b, c) {
        lemma_bytes_le_transitive(a, b, c, 0);
    }
    if bytes_le(a, b) && bytes_le(b, a) {
        lemma_bytes_le_antisymmetric(a, b, 0);
    }
    if bytes_le(b, c) && bytes_le(c, b) {
        lemma_bytes_le_antisymmetric(b, c, 0);
    }
    lemma_bytes_le_reflexive(a, 0);
}

/// Putting an attribute in its place keeps a sorted list sorted and adds
/// exactly that attribute.
pub proof fn lemma_insert_sorted(sorted: Seq<AttributeView>, x: AttributeView)
    requires
        sorted_by(sorted, attribute_order()),
    ensures
        sorted_by(insert_sorted(sorted, x), attribute_order()),
        insert_sorted(sorted, x).to_multiset() == sorted.to_multiset().insert(x),
        insert_sorted(sorted, x).len() == sorted.len() + 1,
    decreases sorted.len(),
{
    broadcast use vstd::multiset::group_multiset_axioms;

    let r = attribute_order();
    let out = insert_sorted(sorted, x);
    lemma_attribute_order_total();
    if sorted.len() == 0 {
        assert(out =~= sorted.push(x));
        to_multiset_build(sorted, x);
        assert(out.to_multiset() =~= sorted.to_multiset().insert(x));
    } else if attribute_le(sorted.last(), x) {
        to_multiset_build(sorted, x);
        assert(out.to_multiset() =~= sorted.to_multiset().insert(x));
        assert forall|i: int, j: int| 0 <= i < j < out.len() implies #[trigger] r(
            out[i],
            out[j],
        ) by {
            if j == sorted.len() {
                if i < sorted.len() - 1 {
                    assert(r(sorted[i], sorted.last()));
                }
                lemma_attribute_le_transitive(sorted[i], sorted.last(), x);
            } else {
                assert(r(sorted[i], sorted[j]));
            }
        }
    } else {
        let front = sorted.drop_last();
        let last = sorted.last();
        assert forall|i: int, j: int| 0 <= i < j < front.len() implies #[trigger] r(
            front[i],
            front[j],
        ) by {
            assert(r(sorted[i], sorted[j]));
        }
        lemma_insert_sorted(front, x);
        let inner = insert_sorted(front, x);
        to_multiset_build(inner, last);
        to_multiset_build(front, last);
        assert(front.push(last) =~= sorted);
        assert(out.to_multiset() =~= sorted.to_multiset().insert(x));
        lemma_attribute_le_total(last, x);
        assert forall|i: int, j: int| 0 <= i < j < out.len() implies #[trigger] r(
            out[i],
            out[j],
        ) by {
            if j == inner.len() {
                let e = inner[i];
                assert(inner.contains(e));
                to_multiset_contains(inner, e);
                to_multiset_contains(front, e);
                if e != x {
                    assert(inner.to_multiset().count(e) > 0);
                    assert(front.to_multiset().insert(x).count(e) > 0);
                    assert(front.to_multiset().count(e) > 0);
                    assert(front.contains(e));
                    let k = choose|k: int| 0 <= k < front.len() && front[k] == e;
                    assert(r(sorted[k], sorted[sorted.len() - 1]));
                }
            } else {
                assert(r(inner[i], inner[j]));
            }
        }
    }
}

/// The canonical order of a list is sorted and holds the same attributes,
/// each as often as the list does.
pub proof fn lemma_canonical_order(items: Seq<AttributeView>)
    ensures
        sorted_by(canonical_order(items), attribute_order()),
        canonical_order(items).to_multiset() == items.to_multiset(),
        canonical_order(items).len() == items.len(),
    decreases items.len(),
{
    if items.len() == 0 {
        assert(items =~= canonical_order(items));
    } else {
        lemma_canonical_order(items.drop_last());
        lemma_insert_sorted(canonical_order(items.drop_last()), items.last());
        to_multiset_build(items.drop_last(), items.last());
        assert(items.drop_last().push(items.last()) =~= items);
        assert(canonical_order(items).to_multiset() =~= items.to_multiset());
    }
}

/// The canonical order does not depend on the order in which the attributes
/// are given: two lists that hold the same attributes equally often have the
/// same canonical order.
pub proof fn lemma_canonical_order_of_permutation(a: Seq<AttributeView>, b: Seq<AttributeView>)
    requires
        a.to_multiset() == b.to_multiset(),
    ensures
        canonical_order(a) == canonical_order(b),
{
    lemma_canonical_order(a);
    lemma_canonical_order(b);
    lemma_attribute_order_total();
    lemma_sorted_unique(canonical_order(a), canonical_order(b), attribute_order());
}

/// Returns true when `x` comes before `y` in the canonical order, or equals it.
pub fn attribute_at_most(x: &Attribute, y: &Attribute) -> (le: bool)
    ensures
        le == attribute_le(x@, y@),
{
    let x_prefixed = x.prefix.len() > 0;
    let y_prefixed = y.prefix.len() > 0;
    if x_prefixed != y_prefixed {
        !x_prefixed
    } else if !bytes_equal(x.namespace_uri.as_slice(), y.namespace_uri.as_slice()) {
        bytes_at_most(x.namespace_uri.as_slice(), y.namespace_uri.as_slice())
    } else if !bytes_equal(x.local_name.as_slice(), y.local_name.as_slice()) {
        bytes_at_most(x.local_name.as_slice(), y.local_name.as_slice())
    } else if !bytes_equal(x.prefix.as_slice(), y.prefix.as_slice()) {
        bytes_at_most(x.prefix.as_slice(), y.prefix.as_slice())
    } else {
        bytes_at_most(x.value.as_slice(), y.value.as_slice())
    }
}

/// Returns a copy of the attribute.
pub fn copy_attribute(x: &Attribute) -> (copy: Attribute)
    ensures
        copy@ == x@,
{
    Attribute {
        prefix: copy_bytes(x.prefix.as_slice()),
        local_name: copy_bytes(x.local_name.as_slice()),
        namespace_uri: copy_bytes(x.namespace_uri.as_slice()),
        value: copy_bytes(x.value.as_slice()),
    }
}

/// Where `x` goes in the sorted list: everything from `position` on comes
/// after `x`, and the place of `x` among the first `position` items decides.
proof fn lemma_insert_position(sorted: Seq<AttributeView>, x: AttributeView, position: int)
    requires
        0 <= position <= sorted.len(),
        forall|k: int| position <= k < sorted.len() ==> !attribute_le(sorted[k], x),
    ensures
        insert_sorted(sorted, x) == insert_sorted(sorted.take(position), x) + sorted.skip(position),
    decreases sorted.len() - position,
{
    if position == sorted.len() {
        assert(sorted.take(position) =~= sorted);
        assert(insert_sorted(sorted, x) + sorted.skip(position) =~= insert_sorted(sorted, x));
    } else {
        let front = sorted.drop_last();
        lemma_insert_position(front, x, position);
        assert(front.take(position) =~= sorted.take(position));
        assert((insert_sorted(front.take(position), x) + front.skip(position)).push(sorted.last())
            =~= insert_sorted(sorted.take(position), x) + sorted.skip(position));
    }
}

/// Returns copies of the attributes in canonical order.
pub fn sorted_attributes(items: &Vec<Attribute>) -> (out: Vec<Attribute>)
    ensures
        attribute_views(out@) == canonical_order(attribute_views(items@)),
{
    let mut out: Vec<Attribute> = Vec::new();
    let mut i: usize = 0;
    assert(attribute_views(items@).take(0) =~= Seq::empty());
    assert(attribute_views(out@) =~= Seq::empty());
    while i < items.len()
        invariant
            i <= items@.len(),
            attribute_views(out@) == canonical_order(attribute_views(items@).take(i as int)),
        decreases items@.len() - i,
    {
        let x = copy_attribute(&items[i]);
        let ghost before = attribute_views(out@);
        let mut position: usize = out.len();
        while position > 0 && !attribute_at_most(&out[position - 1], &x)
            invariant
                position <= out@.len(),
                before == attribute_views(out@),
                forall|k: int| position <= k < before.len() ==> !attribute_le(before[k], x@),
            decreases position,
        {
            position = position - 1;
        }
        out.insert(position, x);
        proof {
            let views = attribute_views(items@);
            lemma_insert_position(before, x@, position as int);
            let front = before.take(position as int);
            if position > 0 {
                assert(front.last() == before[position - 1]);
                assert(insert_sorted(front, x@) == front.push(x@));
            } else {
                assert(front =~= Seq::empty());
            }
            assert(attribute_views(out@) =~= front.push(x@) + before.skip(position as int));
            assert(views.take(i + 1).drop_last() =~= views.take(i as int));
            assert(views.take(i + 1).last() == x@);
        }
        i = i + 1;
    }
    assert(attribute_views(items@).take(items@.len() as int) =~= attribute_views(items@));
    out
}

} // verus!
