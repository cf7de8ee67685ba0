//! Exchanging two items of a vector, which keeps the items it holds.
use vstd::prelude::*;

verus! {

broadcast use {vstd::seq_lib::to_multiset_update, vstd::multiset::group_multiset_axioms};

/// `s` with the items at `i` and `j` exchanged.
pub open spec fn swapped<T>(s: Seq<T>, i: int, j: int) -> Seq<T> {
    s.update(i, s[j]).update(j, s[i])
}

/// Exchanging two items keeps the multiset of items.
pub proof fn lemma_swap_multiset<T>(s: Seq<T>, i: int, j: int)
    requires
        0 <= i < s.len(),
        0 <= j < s.len(),
    ensures
        swapped(s, i, j).to_multiset() == s.to_multiset(),
        swapped(s, i, j).len() == s.len(),
{
    let s1 = s.update(i, s[j]);
    assert(s1.to_multiset() == s.to_multiset().insert(s[j]).remove(s[i]));
    assert(swapped(s, i, j).to_multiset() == s1.to_multiset().insert(s[i]).remove(s1[j]));
    vstd::seq_lib::to_multiset_contains(s, s[i]);
    assert(s.contains(s[i]));
    assert(s.to_multiset().count(s[i]) > 0);
    assert(swapped(s, i, j).to_multiset() =~= s.to_multiset());
}

/// Exchanging two items of the range `lo..hi` keeps the multiset of the
/// range.
pub proof fn lemma_swap_range_multiset<T>(s: Seq<T>, i: int, j: int, lo: int, hi: int)
    requires
        0 <= lo <= i < hi <= s.len(),
        lo <= j < hi,
    ensures
        swapped(s, i, j).subrange(lo, hi).to_multiset() == s.subrange(lo, hi).to_multiset(),
{
    let t = s.subrange(lo, hi);
    assert(swapped(s, i, j).subrange(lo, hi) =~= swapped(t, i - lo, j - lo));
    lemma_swap_multiset(t, i - lo, j - lo);
}

/// Exchanges the items at `i` and `j`.
pub fn swap_items<T: Copy>(v: &mut Vec<T>, i: usize, j: usize)
    requires
        i < old(v).len(),
        j < old(v).len(),
    ensures
        final(v)@ == swapped(old(v)@, i as int, j as int),
        final(v)@.to_multiset() == old(v)@.to_multiset(),
{
    let ghost s = v@;
    let a = v[i];
    let b = v[j];
    v.set(i, b);
    v.set(j, a);
    proof {
        assert(v@ =~= swapped(s, i as int, j as int));
        lemma_swap_multiset(s, i as int, j as int);
    }
}

} // verus!
