//! What is gathered from the elements of a sequence, and that their order does not matter to it.
use vstd::prelude::*;

verus! {

/// What `part` finds in the elements of `s`, element by element.
pub open spec fn gather<A, B>(s: Seq<A>, part: spec_fn(A) -> Seq<B>) -> Seq<B>
    decreases s.len(),
{
    if s.len() == 0 {
        Seq::empty()
    } else {
        gather(s.drop_last(), part) + part(s.last())
    }
}

/// Gathering from all elements is gathering from one of them and from all others.
proof fn gather_from_one_and_others<A, B>(s: Seq<A>, part: spec_fn(A) -> Seq<B>, k: int)
    requires
        0 <= k < s.len(),
    ensures
        gather(s, part).to_multiset() == gather(s.remove(k), part).to_multiset().add(
            part(s[k]).to_multiset(),
        ),
    decreases s.len(),
{
    let front = s.drop_last();
    vstd::seq_lib::lemma_multiset_commutative(gather(front, part), part(s.last()));
    if k == s.len() - 1 {
        assert(s.remove(k) == front);
    } else {
        let others = s.remove(k);
        gather_from_one_and_others(front, part, k);
        assert(others.drop_last() == front.remove(k));
        assert(others.last() == s.last());
        vstd::seq_lib::lemma_multiset_commutative(gather(front.remove(k), part), part(s.last()));
    }
    assert(gather(s, part).to_multiset() =~= gather(s.remove(k), part).to_multiset().add(
        part(s[k]).to_multiset(),
    ));
}

/// What is gathered from the same elements in another order is the same, in another order.
pub proof fn gather_ignores_order<A, B>(a: Seq<A>, b: Seq<A>, part: spec_fn(A) -> Seq<B>)
    requires
        a.to_multiset() == b.to_multiset(),
    ensures
        gather(a, part).to_multiset() == gather(b, part).to_multiset(),
    decreases a.len(),
{
    broadcast use vstd::seq_lib::group_to_multiset_ensures;

    assert(a.len() == a.to_multiset().len());
    assert(b.len() == b.to_multiset().len());
    if a.len() == 0 {
        assert(a == b);
    } else {
        let n = a.len() - 1;
        let x = a[n];
        same_elements(a, b, x);
        assert(a.contains(x));
        let k = choose|k: int| 0 <= k < b.len() && b[k] == x;
        assert(a.remove(n).to_multiset() == b.remove(k).to_multiset());
        gather_ignores_order(a.remove(n), b.remove(k), part);
        gather_from_one_and_others(a, part, n);
        gather_from_one_and_others(b, part, k);
    }
}

/// What stands in a sequence stands in one of the same elements in another order.
pub proof fn same_elements<A>(a: Seq<A>, b: Seq<A>, x: A)
    requires
        a.to_multiset() == b.to_multiset(),
    ensures
        a.contains(x) <==> b.contains(x),
{
    broadcast use vstd::seq_lib::group_to_multiset_ensures;

    assert(a.contains(x) <==> a.to_multiset().count(x) > 0);
}

/// What a function makes of the same elements in another order is the same, in another order.
pub proof fn mapping_ignores_order<A, B>(a: Seq<A>, b: Seq<A>, f: spec_fn(A) -> B)
    requires
        a.to_multiset() == b.to_multiset(),
    ensures
        a.map_values(f).to_multiset() == b.map_values(f).to_multiset(),
{
    let part = |x: A| seq![f(x)];
    gather_ignores_order(a, b, part);
    mapping_gathers(a, f, part);
    mapping_gathers(b, f, part);
}

proof fn mapping_gathers<A, B>(s: Seq<A>, f: spec_fn(A) -> B, part: spec_fn(A) -> Seq<B>)
    requires
        forall|x: A| #[trigger] part(x) == seq![f(x)],
    ensures
        gather(s, part) == s.map_values(f),
    decreases s.len(),
{
    if s.len() > 0 {
        mapping_gathers(s.drop_last(), f, part);
    }
    assert(gather(s, part) =~= s.map_values(f));
}

} // verus!
