//! Sequences that hold the same items equally often, in whatever order.
use vstd::prelude::*;
use vstd::seq_lib::{
    to_multiset_build,
    to_multiset_contains,
    to_multiset_insert,
    to_multiset_len,
    to_multiset_remove,
};

verus! {

/// An item occurs in the kept part of a sequence as often as in the
/// sequence, where it is kept, and not at all, where it is not.
pub proof fn lemma_filter_count<A>(s: Seq<A>, keep: spec_fn(A) -> bool, x: A)
    ensures
        s.filter(keep).to_multiset().count(x) == if keep(x) {
            s.to_multiset().count(x)
        } else {
            0
        },
    decreases s.len(),
{
    broadcast use vstd::multiset::group_multiset_axioms;

    if s.len() == 0 {
        reveal(Seq::filter);
        assert(s.filter(keep) =~= Seq::<A>::empty());
        assert(s =~= Seq::<A>::empty());
        assert(Seq::<A>::empty().to_multiset().count(x) == 0) by {
            to_multiset_len(Seq::<A>::empty());
            to_multiset_contains(Seq::<A>::empty(), x);
        }
    } else {
        let front = s.drop_last();
        let last = s.last();
        lemma_filter_count(front, keep, x);
        assert(front.push(last) =~= s);
        front.lemma_filter_push(last, keep);
        to_multiset_build(front, last);
        if keep(last) {
            to_multiset_build(front.filter(keep), last);
        }
    }
}

/// Two sequences that hold the same items equally often give, item by
/// item, images that hold the same items equally often.
pub proof fn lemma_map_permutation<A, B>(a: Seq<A>, b: Seq<A>, f: spec_fn(A) -> B)
    requires
        a.to_multiset() == b.to_multiset(),
    ensures
        a.map_values(f).to_multiset() == b.map_values(f).to_multiset(),
    decreases a.len(),
{
    broadcast use vstd::multiset::group_multiset_axioms;

    to_multiset_len(a);
    to_multiset_len(b);
    if a.len() == 0 {
        assert(a.map_values(f) =~= b.map_values(f));
    } else {
        let front = a.drop_last();
        let x = a.last();
        assert(front.push(x) =~= a);
        to_multiset_build(front, x);
        to_multiset_contains(b, x);
        assert(b.contains(x));
        let k = choose|k: int| 0 <= k < b.len() && b[k] == x;
        let rest = b.remove(k);
        to_multiset_remove(b, k);
        assert(front.to_multiset() =~= rest.to_multiset());
        lemma_map_permutation(front, rest, f);
        assert(a.map_values(f) =~= front.map_values(f).push(f(x)));
        assert(b.map_values(f) =~= rest.map_values(f).insert(k, f(x)));
        to_multiset_build(front.map_values(f), f(x));
        to_multiset_insert(rest.map_values(f), k, f(x));
    }
}

} // verus!
