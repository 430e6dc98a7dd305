//! Finding the first element of a sequence that meets a condition.
use vstd::prelude::*;

verus! {

/// The least position of `s` whose element satisfies `p`, if there is one.
pub open spec fn first_match<T>(s: Seq<T>, p: spec_fn(T) -> bool) -> Option<int>
    decreases s.len(),
{
    if s.len() == 0 {
        None
    } else {
        match first_match(s.drop_last(), p) {
            Some(i) => Some(i),
            None => if p(s.last()) {
                Some(s.len() - 1)
            } else {
                None
            },
        }
    }
}

/// `first_match` finds a satisfying element with none before it, and finds
/// nothing only where no element satisfies the condition.
pub proof fn lemma_first_match<T>(s: Seq<T>, p: spec_fn(T) -> bool)
    ensures
        match first_match(s, p) {
            Some(i) => 0 <= i < s.len() && p(s[i]) && forall|j: int| 0 <= j < i ==> !p(#[trigger] s[j]),
            None => forall|j: int| 0 <= j < s.len() ==> !p(#[trigger] s[j]),
        },
    decreases s.len(),
{
    if s.len() > 0 {
        lemma_first_match(s.drop_last(), p);
        assert(forall|j: int| 0 <= j < s.len() - 1 ==> s.drop_last()[j] == s[j]);
    }
}

/// A satisfying element with none before it is what `first_match` finds.
pub proof fn lemma_first_match_at<T>(s: Seq<T>, p: spec_fn(T) -> bool, i: int)
    requires
        0 <= i < s.len(),
        p(s[i]),
        forall|j: int| 0 <= j < i ==> !p(#[trigger] s[j]),
    ensures
        first_match(s, p) == Some(i),
{
    lemma_first_match(s, p);
}

/// Appending an element changes the result only where nothing was found.
pub proof fn lemma_first_match_push<T>(s: Seq<T>, p: spec_fn(T) -> bool, x: T)
    ensures
        first_match(s.push(x), p) == match first_match(s, p) {
            Some(i) => Some(i),
            None => if p(x) {
                Some(s.len() as int)
            } else {
                None
            },
        },
{
    assert(s.push(x).drop_last() =~= s);
}

/// What is found in a sequence is found at the same position in every
/// sequence that starts with it.
pub proof fn lemma_first_match_prefix<T>(s: Seq<T>, t: Seq<T>, p: spec_fn(T) -> bool)
    requires
        s.len() <= t.len(),
        forall|j: int| 0 <= j < s.len() ==> s[j] == t[j],
        first_match(s, p).is_some(),
    ensures
        first_match(t, p) == first_match(s, p),
{
    lemma_first_match(s, p);
    let i = first_match(s, p).unwrap();
    assert(t[i] == s[i]);
    assert forall|j: int| 0 <= j < i implies !p(#[trigger] t[j]) by {
        assert(t[j] == s[j]);
    }
    lemma_first_match_at(t, p, i);
}

/// Positions below `n`, no two of them equal, are at most `n`.
pub proof fn lemma_distinct_bounded(q: Seq<int>, n: nat)
    requires
        forall|k: int| 0 <= k < q.len() ==> 0 <= (#[trigger] q[k]) < n,
        forall|a: int, b: int| 0 <= a < b < q.len() ==> q[a] != q[b],
    ensures
        q.len() <= n,
    decreases n,
{
    if n == 0 {
        if q.len() > 0 {
            assert(q[0] < n);
        }
    } else if exists|k: int| 0 <= k < q.len() && q[k] == n - 1 {
        let k = choose|k: int| 0 <= k < q.len() && q[k] == n - 1;
        let rest = q.subrange(0, k) + q.subrange(k + 1, q.len() as int);
        assert forall|j: int| 0 <= j < rest.len() implies 0 <= (#[trigger] rest[j]) < n - 1 by {
            if j < k {
                assert(rest[j] == q[j]);
            } else {
                assert(rest[j] == q[j + 1]);
            }
        }
        assert forall|a: int, b: int| 0 <= a < b < rest.len() implies rest[a] != rest[b] by {
            let a0 = if a < k { a } else { a + 1 };
            let b0 = if b < k { b } else { b + 1 };
            assert(rest[a] == q[a0]);
            assert(rest[b] == q[b0]);
        }
        lemma_distinct_bounded(rest, (n - 1) as nat);
    } else {
        assert forall|j: int| 0 <= j < q.len() implies 0 <= (#[trigger] q[j]) < n - 1 by {
            assert(0 <= q[j] < n);
        }
        lemma_distinct_bounded(q, (n - 1) as nat);
    }
}

} // verus!
