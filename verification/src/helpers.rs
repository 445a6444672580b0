use vstd::prelude::*;

verus! {

/// A vector that the graph code indexes with `u32` node and edge ids.
pub struct MyVec<T>(pub Vec<T>);

impl<T> View for MyVec<T> {
    type V = Seq<T>;

    open spec fn view(&self) -> Seq<T> {
        self.0@
    }
}

impl<T> MyVec<T> {
    /// An empty vector.
    pub fn new() -> (v: MyVec<T>)
        ensures
            v@ == Seq::<T>::empty(),
    {
        MyVec(Vec::new())
    }
}

/// The lexicographic order of pairs, as `Ord` on tuples defines it.
pub open spec fn pair_le(a: (u64, u64), b: (u64, u64)) -> bool {
    a.0 < b.0 || (a.0 == b.0 && a.1 <= b.1)
}

/// The strict lexicographic order of pairs.
pub open spec fn pair_lt(a: (u64, u64), b: (u64, u64)) -> bool {
    a.0 < b.0 || (a.0 == b.0 && a.1 < b.1)
}

/// Sorts pairs in ascending lexicographic order, calling
/// `<[(u64, u64)]>::sort_unstable`. The contract states what the standard
/// library documents: the result is a rearrangement of the input, in
/// ascending order by the tuples' `Ord`.
#[verifier::external_body]
pub(crate) fn sort_pairs(v: &mut Vec<(u64, u64)>)
    ensures
        final(v)@.to_multiset() == old(v)@.to_multiset(),
        forall|i: int, j: int| 0 <= i < j < final(v)@.len() ==> pair_le(final(v)@[i], final(v)@[j]),
{
    v.sort_unstable();
}

/// Some entry of `t` carries the tag `i`.
pub open spec fn tag_occurs(t: Seq<(u64, u64)>, i: int) -> bool {
    exists|k: int| 0 <= k < t.len() && #[trigger] t[k].1 == i
}

/// Sorting keys tagged with their own position gives each tag exactly once,
/// with its key, in strictly increasing order.
pub proof fn lemma_sorted_tagged_keys(s: Seq<(u64, u64)>, t: Seq<(u64, u64)>)
    requires
        forall|i: int| 0 <= i < s.len() ==> #[trigger] s[i].1 == i,
        t.to_multiset() == s.to_multiset(),
        forall|i: int, j: int| 0 <= i < j < t.len() ==> pair_le(t[i], t[j]),
    ensures
        t.len() == s.len(),
        forall|k: int|
            0 <= k < t.len() ==> (#[trigger] t[k]).1 < s.len() && t[k] == s[t[k].1 as int],
        forall|i: int| 0 <= i < s.len() ==> #[trigger] tag_occurs(t, i),
        forall|i: int, j: int| 0 <= i < j < t.len() ==> pair_lt(t[i], t[j]),
{
    broadcast use vstd::seq_lib::group_to_multiset_ensures;

    assert(t.len() == t.to_multiset().len());
    assert(s.len() == s.to_multiset().len());
    assert forall|k: int| 0 <= k < t.len() implies (#[trigger] t[k]).1 < s.len() && t[k] == s[t[k].1 as int] by {
        assert(t.contains(t[k]));
        assert(t.to_multiset().count(t[k]) > 0);
        assert(s.contains(t[k]));
        let i = choose|i: int| 0 <= i < s.len() && s[i] == t[k];
        assert(s[i].1 == i);
    }
    assert forall|i: int| 0 <= i < s.len() implies #[trigger] tag_occurs(t, i) by {
        assert(s.contains(s[i]));
        assert(s.to_multiset().count(s[i]) > 0);
        assert(t.contains(s[i]));
        let k = choose|k: int| 0 <= k < t.len() && t[k] == s[i];
        assert(t[k].1 == i);
    }
    assert(s.no_duplicates()) by {
        assert forall|i: int, j: int| 0 <= i < s.len() && 0 <= j < s.len() && i != j implies s[i]
            != s[j] by {
            assert(s[i].1 == i && s[j].1 == j);
        }
    }
    s.lemma_multiset_has_no_duplicates();
    t.lemma_multiset_has_no_duplicates_conv();
    assert forall|i: int, j: int| 0 <= i < j < t.len() implies pair_lt(t[i], t[j]) by {
        assert(pair_le(t[i], t[j]));
        assert(t[i] != t[j]);
    }
}

} // verus!
