use vstd::prelude::*;
use rand::seq::SliceRandom;

verus! {

/// Calls `rand::seq::SliceRandom::shuffle` on `v` with `rand::thread_rng()`.
/// The contract claims only that the items afterwards are those of before,
/// each as often as before (the crate's shuffle only swaps items). The order
/// that comes out is chosen at random and is left unsaid.
#[verifier::external_body]
pub(crate) fn shuffle<T>(v: &mut Vec<T>)
    ensures
        final(v)@.to_multiset() == old(v)@.to_multiset(),
{
    v.shuffle(&mut rand::thread_rng());
}

/// Two sequences with the same items hold the same values.
pub proof fn lemma_same_items_contains<A>(a: Seq<A>, b: Seq<A>, x: A)
    requires
        a.to_multiset() == b.to_multiset(),
    ensures
        a.contains(x) == b.contains(x),
        a.len() == b.len(),
{
    a.to_multiset_ensures();
    b.to_multiset_ensures();
    assert(a.to_multiset().count(x) == b.to_multiset().count(x));
    assert(a.contains(x) <==> a.to_multiset().count(x) > 0);
    assert(b.contains(x) <==> b.to_multiset().count(x) > 0);
    assert(a.to_multiset().len() == b.to_multiset().len());
}

/// Rearranging a sequence rearranges its image under `f`.
pub proof fn lemma_same_items_map<A, B>(a: Seq<A>, b: Seq<A>, f: spec_fn(A) -> B)
    requires
        a.to_multiset() == b.to_multiset(),
    ensures
        a.map_values(f).to_multiset() == b.map_values(f).to_multiset(),
    decreases a.len(),
{
    broadcast use vstd::seq_lib::group_to_multiset_ensures;

    if a.len() == 0 {
        a.to_multiset_ensures();
        b.to_multiset_ensures();
        assert(b.len() == 0);
        assert(a.map_values(f) =~= b.map_values(f));
    } else {
        let x = a.last();
        assert(a.contains(x)) by {
            assert(a[a.len() - 1] == x);
        }
        lemma_same_items_contains(a, b, x);
        let i = choose|i: int| 0 <= i < b.len() && b[i] == x;
        let a0 = a.drop_last();
        let b0 = b.remove(i);
        assert(a =~= a0.push(x));
        assert(a0.push(x).to_multiset() =~= a0.to_multiset().insert(x));
        assert(b0.to_multiset() =~= b.to_multiset().remove(x));
        assert(a0.to_multiset() =~= a.to_multiset().remove(x));
        lemma_same_items_map(a0, b0, f);
        assert(a.map_values(f) =~= a0.map_values(f).push(f(x)));
        assert(a0.map_values(f).push(f(x)).to_multiset() =~= a0.map_values(f).to_multiset().insert(f(x)));
        assert(b0.map_values(f) =~= b.map_values(f).remove(i));
        assert(b.map_values(f)[i] == f(x));
        assert(b.map_values(f).remove(i).to_multiset() =~= b.map_values(f).to_multiset().remove(f(x)));
        assert(b.map_values(f).contains(f(x))) by {
            assert(b.map_values(f)[i] == f(x));
        }
        b.map_values(f).to_multiset_ensures();
        assert(b.map_values(f).to_multiset().count(f(x)) > 0);
        assert(b.map_values(f).to_multiset() =~= b.map_values(f).to_multiset().remove(f(x)).insert(f(x)));
    }
}

} // verus!
