use vstd::prelude::*;

verus! {

/// Relies on `romu::mod_usize`: it draws a word from the thread-local Romu
/// generator and maps it into `0..n` by a widening multiply and shift, so for
/// `n >= 1` the result is always strictly below `n` and the call never panics.
/// Nothing more is promised: the value depends on the generator's state.
#[verifier::external_body]
pub fn rand_below(n: usize) -> (r: usize)
    requires
        n >= 1,
    ensures
        r < n,
{
    romu::mod_usize(n)
}

/// Shuffle the vector in place by a Fisher-Yates pass; the result is a
/// permutation (the multiset of entries is unchanged), whatever the
/// generator returned.
pub fn shuffle_u32(v: &mut Vec<u32>)
    ensures
        final(v)@.len() == old(v)@.len(),
        final(v)@.to_multiset() == old(v)@.to_multiset(),
{
    broadcast use vstd::seq_lib::group_to_multiset_ensures;
    broadcast use vstd::multiset::group_multiset_axioms;
    broadcast use vstd::multiset::group_multiset_properties;

    let ghost orig = v@;
    let mut i: usize = 1;
    while i < v.len()
        invariant
            v@.len() == orig.len(),
            v@.to_multiset() == orig.to_multiset(),
            1 <= i || v@.len() == 0,
        decreases v@.len() - i,
    {
        let ghost pre = v@;
        let j = rand_below(i + 1);
        let a = v[i];
        let b = v[j];
        v.set(i, b);
        let ghost mid = v@;
        v.set(j, a);
        proof {
            assert(mid =~= pre.update(i as int, pre[j as int]));
            assert(v@ =~= mid.update(j as int, pre[i as int]));
            if i == j {
                assert(v@ =~= pre);
            } else {
                vstd::seq_lib::to_multiset_update(pre, i as int, pre[j as int]);
                vstd::seq_lib::to_multiset_update(mid, j as int, pre[i as int]);
                assert(mid[j as int] == pre[j as int]);
                assert(pre.contains(pre[i as int]));
                assert(pre.contains(pre[j as int]));
                vstd::seq_lib::to_multiset_contains(pre, pre[i as int]);
                vstd::seq_lib::to_multiset_contains(pre, pre[j as int]);
                assert(v@.to_multiset() =~= pre.to_multiset());
            }
        }
        i = i + 1;
    }
}

} // verus!
