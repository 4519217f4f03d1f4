//! Summation over sequences.
//!
//! Every conservation argument in the crate reduces to facts about the
//! total of a sequence of integers: how the total moves when one element
//! is updated, pushed or removed, and how single elements relate to it.

use vstd::prelude::*;

verus! {

/// Total of a sequence of integers.
pub open spec fn sum(s: Seq<int>) -> int
    decreases s.len(),
{
    if s.len() == 0 {
        0
    } else {
        s[0] + sum(s.subrange(1, s.len() as int))
    }
}

pub proof fn lemma_sum_push(s: Seq<int>, x: int)
    ensures
        sum(s.push(x)) == sum(s) + x,
    decreases s.len(),
{
    if s.len() == 0 {
        assert(s.push(x).subrange(1, 1) =~= Seq::<int>::empty());
        assert(s.push(x).len() == 1);
        assert(s.push(x)[0] == x);
        assert(sum(s.push(x)) == x + sum(s.push(x).subrange(1, 1)));
        assert(sum(s.push(x).subrange(1, 1)) == 0);
        assert(sum(s) == 0);
    } else {
        assert(s.push(x).subrange(1, (s.len() + 1) as int)
            =~= s.subrange(1, s.len() as int).push(x));
        lemma_sum_push(s.subrange(1, s.len() as int), x);
        assert(s.push(x).len() == s.len() + 1);
        assert(s.push(x)[0] == s[0]);
        assert(sum(s.push(x)) == s[0] + sum(s.push(x).subrange(1, (s.len() + 1) as int)));
        assert(sum(s) == s[0] + sum(s.subrange(1, s.len() as int)));
    }
}

pub proof fn lemma_sum_update(s: Seq<int>, i: int, x: int)
    requires
        0 <= i < s.len(),
    ensures
        sum(s.update(i, x)) == sum(s) - s[i] + x,
    decreases s.len(),
{
    if i == 0 {
        assert(s.update(0, x).subrange(1, s.len() as int) =~= s.subrange(1, s.len() as int));
    } else {
        assert(s.update(i, x).subrange(1, s.len() as int)
            =~= s.subrange(1, s.len() as int).update(i - 1, x));
        lemma_sum_update(s.subrange(1, s.len() as int), i - 1, x);
    }
}

pub proof fn lemma_sum_remove(s: Seq<int>, i: int)
    requires
        0 <= i < s.len(),
    ensures
        sum(s.remove(i)) == sum(s) - s[i],
    decreases s.len(),
{
    if i == 0 {
        assert(s.remove(0) =~= s.subrange(1, s.len() as int));
    } else {
        assert(s.remove(i).subrange(1, (s.len() - 1) as int)
            =~= s.subrange(1, s.len() as int).remove(i - 1));
        lemma_sum_remove(s.subrange(1, s.len() as int), i - 1);
    }
}

pub proof fn lemma_sum_zero(s: Seq<int>)
    requires
        forall|j: int| 0 <= j < s.len() ==> s[j] == 0,
    ensures
        sum(s) == 0,
    decreases s.len(),
{
    if s.len() > 0 {
        lemma_sum_zero(s.subrange(1, s.len() as int));
    }
}

pub proof fn lemma_sum_single(s: Seq<int>, i: int)
    requires
        0 <= i < s.len(),
        forall|j: int| 0 <= j < s.len() && j != i ==> s[j] == 0,
    ensures
        sum(s) == s[i],
    decreases s.len(),
{
    if i == 0 {
        lemma_sum_zero(s.subrange(1, s.len() as int));
    } else {
        lemma_sum_single(s.subrange(1, s.len() as int), i - 1);
    }
}

pub proof fn lemma_sum_nonneg(s: Seq<int>)
    requires
        forall|j: int| 0 <= j < s.len() ==> s[j] >= 0,
    ensures
        sum(s) >= 0,
    decreases s.len(),
{
    if s.len() > 0 {
        lemma_sum_nonneg(s.subrange(1, s.len() as int));
    }
}

pub proof fn lemma_sum_elem_le(s: Seq<int>, i: int)
    requires
        0 <= i < s.len(),
        forall|j: int| 0 <= j < s.len() ==> s[j] >= 0,
    ensures
        s[i] <= sum(s),
    decreases s.len(),
{
    if i == 0 {
        lemma_sum_nonneg(s.subrange(1, s.len() as int));
    } else {
        lemma_sum_elem_le(s.subrange(1, s.len() as int), i - 1);
    }
}

pub proof fn lemma_sum_le(s1: Seq<int>, s2: Seq<int>)
    requires
        s1.len() == s2.len(),
        forall|j: int| 0 <= j < s1.len() ==> s1[j] <= s2[j],
    ensures
        sum(s1) <= sum(s2),
    decreases s1.len(),
{
    if s1.len() > 0 {
        lemma_sum_le(s1.subrange(1, s1.len() as int), s2.subrange(1, s2.len() as int));
    }
}

// The engine's totals are sums of a per-record contribution over a record
// sequence; the lemmas below lift the facts above through `map_values`.

pub proof fn lemma_sum_map_push<A>(s: Seq<A>, x: A, f: spec_fn(A) -> int)
    ensures
        sum(s.push(x).map_values(f)) == sum(s.map_values(f)) + f(x),
{
    assert(s.push(x).map_values(f) =~= s.map_values(f).push(f(x)));
    lemma_sum_push(s.map_values(f), f(x));
}

pub proof fn lemma_sum_map_update<A>(s: Seq<A>, i: int, x: A, f: spec_fn(A) -> int)
    requires
        0 <= i < s.len(),
    ensures
        sum(s.update(i, x).map_values(f)) == sum(s.map_values(f)) - f(s[i]) + f(x),
{
    assert(s.update(i, x).map_values(f) =~= s.map_values(f).update(i, f(s[i])).update(i, f(x)));
    assert(s.map_values(f).update(i, f(s[i])) =~= s.map_values(f));
    lemma_sum_update(s.map_values(f), i, f(x));
}

pub proof fn lemma_sum_map_remove<A>(s: Seq<A>, i: int, f: spec_fn(A) -> int)
    requires
        0 <= i < s.len(),
    ensures
        sum(s.remove(i).map_values(f)) == sum(s.map_values(f)) - f(s[i]),
{
    assert(s.remove(i).map_values(f) =~= s.map_values(f).remove(i));
    lemma_sum_remove(s.map_values(f), i);
}

pub proof fn lemma_sum_map_zero<A>(s: Seq<A>, f: spec_fn(A) -> int)
    requires
        forall|j: int| 0 <= j < s.len() ==> #[trigger] f(s[j]) == 0,
    ensures
        sum(s.map_values(f)) == 0,
{
    lemma_sum_zero(s.map_values(f));
}

pub proof fn lemma_sum_map_single<A>(s: Seq<A>, i: int, f: spec_fn(A) -> int)
    requires
        0 <= i < s.len(),
        forall|j: int| 0 <= j < s.len() && j != i ==> #[trigger] f(s[j]) == 0,
    ensures
        sum(s.map_values(f)) == f(s[i]),
{
    lemma_sum_single(s.map_values(f), i);
}

pub proof fn lemma_sum_map_nonneg<A>(s: Seq<A>, f: spec_fn(A) -> int)
    requires
        forall|j: int| 0 <= j < s.len() ==> #[trigger] f(s[j]) >= 0,
    ensures
        sum(s.map_values(f)) >= 0,
{
    lemma_sum_nonneg(s.map_values(f));
}

pub proof fn lemma_sum_map_le<A>(s: Seq<A>, f: spec_fn(A) -> int, g: spec_fn(A) -> int)
    requires
        forall|j: int| 0 <= j < s.len() ==> #[trigger] f(s[j]) <= #[trigger] g(s[j]),
    ensures
        sum(s.map_values(f)) <= sum(s.map_values(g)),
{
    lemma_sum_le(s.map_values(f), s.map_values(g));
}

pub proof fn lemma_sum_map_elem_le<A>(s: Seq<A>, i: int, f: spec_fn(A) -> int)
    requires
        0 <= i < s.len(),
        forall|j: int| 0 <= j < s.len() ==> #[trigger] f(s[j]) >= 0,
    ensures
        f(s[i]) <= sum(s.map_values(f)),
{
    lemma_sum_elem_le(s.map_values(f), i);
}

} // verus!
