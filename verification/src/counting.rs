//! Counting the items of a sequence that have a property.

use vstd::multiset::*;
use vstd::prelude::*;

verus! {

/// How many items of `s` have the property `p`.
pub open spec fn count_where<T>(s: Seq<T>, p: spec_fn(T) -> bool) -> nat
    decreases s.len(),
{
    if s.len() == 0 {
        0
    } else {
        count_where(s.drop_last(), p) + if p(s.last()) {
            1nat
        } else {
            0nat
        }
    }
}

/// The count does not depend on the order of the items.
pub proof fn lemma_count_by_multiset<T>(s: Seq<T>, p: spec_fn(T) -> bool)
    ensures
        count_where(s, p) == s.to_multiset().filter(p).len(),
    decreases s.len(),
{
    broadcast use group_multiset_axioms;
    broadcast use vstd::seq_lib::group_to_multiset_ensures;

    if s.len() == 0 {
        assert(s.to_multiset() =~= Multiset::<T>::empty());
        assert(s.to_multiset().filter(p) =~= Multiset::<T>::empty());
    } else {
        let front = s.drop_last();
        let x = s.last();
        lemma_count_by_multiset(front, p);
        assert(s == front.push(x));
        assert(s.to_multiset() =~= front.to_multiset().insert(x));
        if p(x) {
            assert(s.to_multiset().filter(p) =~= front.to_multiset().filter(p).insert(x));
        } else {
            assert(s.to_multiset().filter(p) =~= front.to_multiset().filter(p));
        }
    }
}

/// If nothing from `k` on has the property, at most `k` items do.
pub proof fn lemma_count_at_most<T>(s: Seq<T>, p: spec_fn(T) -> bool, k: int)
    requires
        0 <= k <= s.len(),
        forall|i: int| k <= i < s.len() ==> !p(#[trigger] s[i]),
    ensures
        count_where(s, p) <= k,
    decreases s.len(),
{
    if s.len() > 0 {
        let front = s.drop_last();
        assert forall|i: int| k <= i < front.len() implies !p(#[trigger] front[i]) by {
            assert(!p(s[i]));
        }
        if k == s.len() {
            lemma_count_at_most(front, p, k - 1);
        } else {
            assert(!p(s[s.len() - 1]));
            lemma_count_at_most(front, p, k);
        }
    }
}

/// If the first `k` items have the property, at least `k` items do.
pub proof fn lemma_count_at_least<T>(s: Seq<T>, p: spec_fn(T) -> bool, k: int)
    requires
        0 <= k <= s.len(),
        forall|i: int| 0 <= i < k ==> p(#[trigger] s[i]),
    ensures
        count_where(s, p) >= k,
    decreases s.len(),
{
    if k > 0 {
        let front = s.drop_last();
        assert forall|i: int| 0 <= i < k && i < front.len() implies p(#[trigger] front[i]) by {
            assert(p(s[i]));
        }
        if k == s.len() {
            assert(p(s[s.len() - 1]));
            lemma_count_at_least(front, p, k - 1);
        } else {
            lemma_count_at_least(front, p, k);
        }
    }
}

/// Never more than there are items.
pub proof fn lemma_count_bounds<T>(s: Seq<T>, p: spec_fn(T) -> bool)
    ensures
        count_where(s, p) <= s.len(),
    decreases s.len(),
{
    if s.len() > 0 {
        lemma_count_bounds(s.drop_last(), p);
    }
}

/// Changing one item changes the count by what it was and what it has become.
pub proof fn lemma_count_update<T>(s: Seq<T>, at: int, x: T, p: spec_fn(T) -> bool)
    requires
        0 <= at < s.len(),
    ensures
        count_where(s.update(at, x), p) + (if p(s[at]) {
            1int
        } else {
            0int
        }) == count_where(s, p) + (if p(x) {
            1int
        } else {
            0int
        }),
    decreases s.len(),
{
    if at == s.len() - 1 {
        assert(s.update(at, x).drop_last() == s.drop_last());
    } else {
        assert(s.update(at, x).drop_last() == s.drop_last().update(at, x));
        lemma_count_update(s.drop_last(), at, x, p);
    }
}

/// If every item has the property, all of them are counted.
pub proof fn lemma_count_all<T>(s: Seq<T>, p: spec_fn(T) -> bool)
    ensures
        (count_where(s, p) == s.len()) == (forall|i: int| 0 <= i < s.len() ==> p(#[trigger] s[i])),
    decreases s.len(),
{
    if s.len() > 0 {
        let front = s.drop_last();
        lemma_count_all(front, p);
        lemma_count_bounds(front, p);
        if forall|i: int| 0 <= i < s.len() ==> p(#[trigger] s[i]) {
            assert forall|i: int| 0 <= i < front.len() implies p(#[trigger] front[i]) by {
                assert(p(s[i]));
            }
            assert(p(s[s.len() - 1]));
        } else if count_where(s, p) == s.len() {
            assert forall|i: int| 0 <= i < s.len() implies p(#[trigger] s[i]) by {
                if i < front.len() {
                    assert(p(front[i]));
                }
            }
        }
    }
}

/// What is in a sequence with one more item.
pub proof fn lemma_contains_push<T>(s: Seq<T>, last: T, x: T)
    ensures
        s.push(last).contains(x) == (s.contains(x) || x == last),
{
    let t = s.push(last);
    assert(t[s.len() as int] == last);
    if s.contains(x) {
        let i = choose|i: int| 0 <= i < s.len() && s[i] == x;
        assert(t[i] == x);
    }
    if t.contains(x) {
        let i = choose|i: int| 0 <= i < t.len() && t[i] == x;
        if i < s.len() {
            assert(s[i] == x);
        }
    }
}

} // verus!
