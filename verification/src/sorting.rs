//! Sorting of machine integers, stated over the numbers they stand for.

use vstd::prelude::*;
use vstd::relations::{sorted_by, total_ordering};
use vstd::seq_lib::{
    lemma_sorted_unique, to_multiset_build, to_multiset_contains, to_multiset_insert,
    to_multiset_remove,
};

verus! {

/// The numbers that a sequence of machine integers stands for.
pub open spec fn numbers(s: Seq<usize>) -> Seq<nat> {
    s.map_values(|x: usize| x as nat)
}

/// No number is followed, anywhere later, by a smaller one.
pub open spec fn ascending(s: Seq<nat>) -> bool {
    forall|i: int, j: int| 0 <= i < j < s.len() ==> s[i] <= s[j]
}

/// `a` is a rearrangement of `b`: each number occurs as often in one as in
/// the other.
pub open spec fn rearranged(a: Seq<nat>, b: Seq<nat>) -> bool {
    a.to_multiset() == b.to_multiset()
}

/// A sequence has only one ascending rearrangement.
pub proof fn lemma_ascending_unique(a: Seq<nat>, b: Seq<nat>)
    requires
        ascending(a),
        ascending(b),
        rearranged(a, b),
    ensures
        a == b,
{
    let leq = |x: nat, y: nat| x <= y;
    assert(total_ordering(leq));
    assert(sorted_by(a, leq));
    assert(sorted_by(b, leq));
    lemma_sorted_unique(a, b, leq);
}

/// A rearrangement has the length of what it rearranges.
pub proof fn lemma_rearranged_len(a: Seq<nat>, b: Seq<nat>)
    requires
        rearranged(a, b),
    ensures
        a.len() == b.len(),
{
    a.to_multiset_ensures();
    b.to_multiset_ensures();
}

/// A rearrangement holds the same numbers.
pub proof fn lemma_rearranged_contains(a: Seq<nat>, b: Seq<nat>, x: nat)
    requires
        rearranged(a, b),
    ensures
        a.contains(x) == b.contains(x),
{
    to_multiset_contains(a, x);
    to_multiset_contains(b, x);
}

/// What is done to each number of a sequence can be done to each number of
/// a rearrangement of it, and the results are rearrangements of each other.
pub proof fn lemma_rearranged_map(a: Seq<nat>, b: Seq<nat>, f: spec_fn(nat) -> nat)
    requires
        rearranged(a, b),
    ensures
        rearranged(a.map_values(f), b.map_values(f)),
    decreases a.len(),
{
    lemma_rearranged_len(a, b);
    if a.len() == 0 {
        assert(a.map_values(f) =~= b.map_values(f));
    } else {
        let x = a.last();
        assert(a.contains(x));
        lemma_rearranged_contains(a, b, x);
        let i = choose|i: int| 0 <= i < b.len() && b[i] == x;
        let a0 = a.drop_last();
        let b0 = b.remove(i);
        assert(a =~= a0.push(x));
        to_multiset_build(a0, x);
        to_multiset_remove(b, i);
        assert(a0.to_multiset() =~= b0.to_multiset());
        lemma_rearranged_map(a0, b0, f);
        assert(a.map_values(f) =~= a0.map_values(f).push(f(x)));
        assert(b.map_values(f) =~= b0.map_values(f).insert(i, f(x)));
        to_multiset_build(a0.map_values(f), f(x));
        to_multiset_insert(b0.map_values(f), i, f(x));
    }
}

/// Sorts `v` into ascending order.
pub fn sort_ascending(v: &mut Vec<usize>)
    ensures
        ascending(numbers(final(v)@)),
        rearranged(numbers(final(v)@), numbers(old(v)@)),
{
    let n: usize = v.len();
    let mut out: Vec<usize> = Vec::new();
    let mut k: usize = 0;
    assert(numbers(v@.take(0)) =~= numbers(out@));
    while k < n
        invariant
            k <= n,
            n == v.len(),
            out.len() == k,
            ascending(numbers(out@)),
            rearranged(numbers(out@), numbers(v@.take(k as int))),
        decreases n - k,
    {
        let x: usize = v[k];
        let mut pos: usize = 0;
        while pos < k && out[pos] <= x
            invariant
                pos <= k,
                out.len() == k,
                forall|i: int| 0 <= i < pos ==> out[i] <= x,
            decreases k - pos,
        {
            pos += 1;
        }
        proof {
            let before = numbers(out@);
            let after = numbers(out@.insert(pos as int, x));
            assert(after =~= before.insert(pos as int, x as nat));
            to_multiset_insert(before, pos as int, x as nat);
            let seen = numbers(v@.take(k as int));
            assert(numbers(v@.take(k + 1)) =~= seen.push(x as nat));
            to_multiset_build(seen, x as nat);
            assert forall|i: int, j: int| 0 <= i < j < after.len() implies after[i] <= after[j] by {
                if j < pos {
                    assert(after[i] == before[i] && after[j] == before[j]);
                } else if j == pos {
                    assert(after[i] == before[i]);
                } else if i < pos {
                    assert(after[i] == before[i] && after[j] == before[j - 1]);
                } else if i == pos {
                    assert(after[j] == before[j - 1]);
                    assert(before[pos as int] > x);
                    assert(before[pos as int] <= before[j - 1]);
                } else {
                    assert(after[i] == before[i - 1] && after[j] == before[j - 1]);
                }
            }
        }
        out.insert(pos, x);
        k += 1;
    }
    assert(v@.take(n as int) =~= v@);
    *v = out;
}

} // verus!
