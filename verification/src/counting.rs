use vstd::prelude::*;

verus! {

/// Number of unset flags.
pub open spec fn count_unset(s: Seq<bool>) -> nat
    decreases s.len(),
{
    if s.len() == 0 {
        0
    } else {
        count_unset(s.drop_last()) + if s.last() { 0nat } else { 1nat }
    }
}

/// Setting an unset flag lowers the count by one; setting a set flag
/// changes nothing.
pub proof fn lemma_count_unset_set(s: Seq<bool>, i: int)
    requires
        0 <= i < s.len(),
    ensures
        !s[i] ==> count_unset(s.update(i, true)) + 1 == count_unset(s),
        s[i] ==> count_unset(s.update(i, true)) == count_unset(s),
    decreases s.len(),
{
    if i == s.len() - 1 {
        assert(s.update(i, true).drop_last() =~= s.drop_last());
    } else {
        lemma_count_unset_set(s.drop_last(), i);
        assert(s.update(i, true).drop_last() =~= s.drop_last().update(i, true));
    }
}

/// A count of unset flags is at most the length.
pub proof fn lemma_count_unset_bound(s: Seq<bool>)
    ensures
        count_unset(s) <= s.len(),
    decreases s.len(),
{
    if s.len() > 0 {
        lemma_count_unset_bound(s.drop_last());
    }
}

/// Number of queue entries whose flag is set.
pub open spec fn count_seen(q: Seq<usize>, seen: Seq<bool>) -> nat
    decreases q.len(),
{
    if q.len() == 0 {
        0
    } else {
        count_seen(q.drop_first(), seen) + if q[0] < seen.len() && seen[q[0] as int] { 1nat } else { 0nat }
    }
}

/// Appending an entry whose flag is unset leaves the count unchanged.
pub proof fn lemma_count_seen_push(q: Seq<usize>, seen: Seq<bool>, x: usize)
    requires
        !(x < seen.len() && seen[x as int]),
    ensures
        count_seen(q.push(x), seen) == count_seen(q, seen),
    decreases q.len(),
{
    if q.len() == 0 {
        assert(q.push(x).drop_first() =~= Seq::<usize>::empty());
        assert(count_seen(Seq::<usize>::empty(), seen) == 0);
        assert(q.push(x)[0] == x);
    } else {
        lemma_count_seen_push(q.drop_first(), seen, x);
        assert(q.push(x).drop_first() =~= q.drop_first().push(x));
        assert(q.push(x)[0] == q[0]);
    }
}

} // verus!
