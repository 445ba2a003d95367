//! Stable sorting, as a function on sequences.

use vstd::prelude::*;
use vstd::seq_lib::*;

verus! {

/// `sorted` with `x` put after the last element that does not have to follow it.
pub open spec fn insert_stable<T>(sorted: Seq<T>, x: T, leq: spec_fn(T, T) -> bool) -> Seq<T>
    decreases sorted.len(),
{
    if sorted.len() > 0 && !leq(sorted.last(), x) {
        insert_stable(sorted.drop_last(), x, leq).push(sorted.last())
    } else {
        sorted.push(x)
    }
}

/// The elements of `s` in the order `leq`; elements that may stand either way keep the order that
/// they have in `s`.
pub open spec fn sort_stable<T>(s: Seq<T>, leq: spec_fn(T, T) -> bool) -> Seq<T>
    decreases s.len(),
{
    if s.len() == 0 {
        s
    } else {
        insert_stable(sort_stable(s.drop_last(), leq), s.last(), leq)
    }
}

/// Whether `leq` compares any two elements, and consistently.
pub open spec fn total_preorder<T>(leq: spec_fn(T, T) -> bool) -> bool {
    &&& forall|a: T, b: T| #[trigger] leq(a, b) || leq(b, a)
    &&& forall|a: T, b: T, c: T| #[trigger] leq(a, b) && #[trigger] leq(b, c) ==> leq(a, c)
}

/// Whether `s` is in the order `leq`.
pub open spec fn in_order<T>(s: Seq<T>, leq: spec_fn(T, T) -> bool) -> bool {
    forall|i: int, j: int|
        #![trigger s[i], s[j]]
        0 <= i < j < s.len() ==> leq(s[i], s[j])
}

/// Where an element is put is the place behind the last that does not have to follow it.
pub proof fn lemma_insert_at<T>(s: Seq<T>, x: T, leq: spec_fn(T, T) -> bool, at: int)
    requires
        0 <= at <= s.len(),
        forall|j: int| #![trigger s[j]] at <= j < s.len() ==> !leq(s[j], x),
        at > 0 ==> leq(s[at - 1], x),
    ensures
        insert_stable(s, x, leq) == s.insert(at, x),
    decreases s.len(),
{
    if at < s.len() {
        lemma_insert_at(s.drop_last(), x, leq, at);
        assert(s.drop_last().insert(at, x).push(s.last()) == s.insert(at, x));
    } else {
        assert(s.push(x) == s.insert(at, x));
    }
}

/// Inserting adds one element and loses none.
pub proof fn lemma_insert_multiset<T>(s: Seq<T>, x: T, leq: spec_fn(T, T) -> bool)
    ensures
        insert_stable(s, x, leq).to_multiset() == s.to_multiset().insert(x),
        insert_stable(s, x, leq).len() == s.len() + 1,
    decreases s.len(),
{
    broadcast use group_to_multiset_ensures;

    if s.len() > 0 && !leq(s.last(), x) {
        lemma_insert_multiset(s.drop_last(), x, leq);
        assert(s.drop_last().push(s.last()) == s);
        assert(insert_stable(s, x, leq).to_multiset() =~= s.to_multiset().insert(x));
    }
}

/// Sorting keeps every element, as often as it occurs.
pub proof fn lemma_sort_multiset<T>(s: Seq<T>, leq: spec_fn(T, T) -> bool)
    ensures
        sort_stable(s, leq).to_multiset() == s.to_multiset(),
        sort_stable(s, leq).len() == s.len(),
    decreases s.len(),
{
    broadcast use group_to_multiset_ensures;

    if s.len() > 0 {
        lemma_sort_multiset(s.drop_last(), leq);
        lemma_insert_multiset(sort_stable(s.drop_last(), leq), s.last(), leq);
        assert(s.drop_last().push(s.last()) == s);
    }
}

/// What holds of every element holds of every element once they are sorted.
pub proof fn lemma_sort_all<T>(s: Seq<T>, leq: spec_fn(T, T) -> bool, holds: spec_fn(T) -> bool)
    requires
        forall|i: int| #![trigger s[i]] 0 <= i < s.len() ==> holds(s[i]),
    ensures
        forall|i: int|
            #![trigger sort_stable(s, leq)[i]]
            0 <= i < s.len() ==> holds(sort_stable(s, leq)[i]),
{
    broadcast use group_to_multiset_ensures;

    let sorted = sort_stable(s, leq);
    lemma_sort_multiset(s, leq);
    assert forall|i: int| #![trigger sorted[i]] 0 <= i < s.len() implies holds(sorted[i]) by {
        assert(sorted.contains(sorted[i]));
        assert(s.to_multiset().contains(sorted[i]));
        assert(s.contains(sorted[i]));
        let j = choose|j: int| 0 <= j < s.len() && s[j] == sorted[i];
        assert(holds(s[j]));
    }
}

/// Inserting holds the elements in order.
proof fn lemma_insert_in_order<T>(s: Seq<T>, x: T, leq: spec_fn(T, T) -> bool)
    requires
        total_preorder(leq),
        in_order(s, leq),
    ensures
        in_order(insert_stable(s, x, leq), leq),
        forall|i: int|
            #![trigger insert_stable(s, x, leq)[i]]
            0 <= i <= s.len() ==> insert_stable(s, x, leq)[i] == x || s.contains(
                insert_stable(s, x, leq)[i],
            ),
    decreases s.len(),
{
    let r = insert_stable(s, x, leq);
    lemma_insert_multiset(s, x, leq);
    if s.len() > 0 && !leq(s.last(), x) {
        let rest = s.drop_last();
        let inner = insert_stable(rest, x, leq);
        lemma_insert_multiset(rest, x, leq);
        assert(in_order(rest, leq)) by {
            assert forall|i: int, j: int|
                #![trigger rest[i], rest[j]]
                0 <= i < j < rest.len() implies leq(rest[i], rest[j]) by {
                assert(rest[i] == s[i] && rest[j] == s[j]);
            }
        }
        lemma_insert_in_order(rest, x, leq);
        assert forall|i: int, j: int|
            #![trigger r[i], r[j]]
            0 <= i < j < r.len() implies leq(r[i], r[j]) by {
            if j == r.len() - 1 {
                assert(r[j] == s.last());
                assert(r[i] == inner[i]);
                if inner[i] != x {
                    let k = rest.index_of(inner[i]);
                    assert(rest.contains(inner[i]));
                    assert(s[k] == inner[i] && k < s.len() - 1);
                    assert(leq(s[k], s[s.len() - 1]));
                } else {
                    assert(leq(x, s.last()) || leq(s.last(), x));
                }
            } else {
                assert(r[i] == inner[i] && r[j] == inner[j]);
            }
        }
        assert forall|i: int|
            #![trigger r[i]]
            0 <= i <= s.len() implies r[i] == x || s.contains(r[i]) by {
            if i < s.len() {
                assert(r[i] == inner[i]);
                if inner[i] != x {
                    let k = rest.index_of(inner[i]);
                    assert(rest.contains(inner[i]));
                    assert(s[k] == inner[i]);
                }
            } else {
                assert(r[i] == s[s.len() - 1]);
            }
        }
    } else {
        assert forall|i: int, j: int|
            #![trigger r[i], r[j]]
            0 <= i < j < r.len() implies leq(r[i], r[j]) by {
            if j == r.len() - 1 {
                assert(r[i] == s[i]);
                if i < s.len() - 1 {
                    assert(leq(s[i], s[s.len() - 1]));
                    assert(leq(s[s.len() - 1], x));
                }
            } else {
                assert(r[i] == s[i] && r[j] == s[j]);
            }
        }
        assert forall|i: int|
            #![trigger r[i]]
            0 <= i <= s.len() implies r[i] == x || s.contains(r[i]) by {
            if i < s.len() {
                assert(r[i] == s[i]);
            }
        }
    }
}

/// Sorting puts the elements in order.
pub proof fn lemma_sort_in_order<T>(s: Seq<T>, leq: spec_fn(T, T) -> bool)
    requires
        total_preorder(leq),
    ensures
        in_order(sort_stable(s, leq), leq),
    decreases s.len(),
{
    if s.len() > 0 {
        lemma_sort_in_order(s.drop_last(), leq);
        lemma_insert_in_order(sort_stable(s.drop_last(), leq), s.last(), leq);
    }
}

/// Whether neither of two elements has to follow the other.
pub open spec fn same_rank<T>(a: T, leq: spec_fn(T, T) -> bool) -> spec_fn(T) -> bool {
    |b: T| leq(a, b) && leq(b, a)
}

/// Inserting puts an element behind all that have its rank.
proof fn lemma_insert_rank<T>(s: Seq<T>, x: T, leq: spec_fn(T, T) -> bool, a: T)
    requires
        total_preorder(leq),
    ensures
        insert_stable(s, x, leq).filter(same_rank(a, leq)) == s.push(x).filter(same_rank(a, leq)),
    decreases s.len(),
{
    broadcast use Seq::lemma_filter_push;

    let rank = same_rank(a, leq);
    if s.len() > 0 && !leq(s.last(), x) {
        let rest = s.drop_last();
        lemma_insert_rank(rest, x, leq, a);
        assert(rest.push(s.last()) == s);
        assert(rank(x) ==> !rank(s.last())) by {
            if rank(x) && rank(s.last()) {
                assert(leq(s.last(), a) && leq(a, x));
            }
        }
        assert(insert_stable(s, x, leq).filter(rank) == s.push(x).filter(rank));
    }
}

/// Sorting keeps the order of the elements of one rank.
pub proof fn lemma_sort_rank<T>(s: Seq<T>, leq: spec_fn(T, T) -> bool, a: T)
    requires
        total_preorder(leq),
    ensures
        sort_stable(s, leq).filter(same_rank(a, leq)) == s.filter(same_rank(a, leq)),
    decreases s.len(),
{
    broadcast use Seq::lemma_filter_push;

    if s.len() > 0 {
        let rest = s.drop_last();
        lemma_sort_rank(rest, leq, a);
        lemma_insert_rank(sort_stable(rest, leq), s.last(), leq, a);
        assert(rest.push(s.last()) == s);
    }
}

/// What is in order already stays as it is.
pub proof fn lemma_sort_in_order_unchanged<T>(s: Seq<T>, leq: spec_fn(T, T) -> bool)
    requires
        in_order(s, leq),
    ensures
        sort_stable(s, leq) == s,
    decreases s.len(),
{
    if s.len() > 0 {
        let rest = s.drop_last();
        assert(in_order(rest, leq)) by {
            assert forall|i: int, j: int|
                #![trigger rest[i], rest[j]]
                0 <= i < j < rest.len() implies leq(rest[i], rest[j]) by {
                assert(rest[i] == s[i] && rest[j] == s[j]);
            }
        }
        lemma_sort_in_order_unchanged(rest, leq);
        if rest.len() > 0 {
            assert(leq(s[s.len() - 2], s[s.len() - 1]));
        }
        assert(rest.push(s.last()) == s);
    }
}

/// Inserting is the same before and after a change that the order does not see.
proof fn lemma_insert_map<T>(s: Seq<T>, x: T, leq: spec_fn(T, T) -> bool, f: spec_fn(T) -> T)
    requires
        forall|a: T, b: T| #[trigger] leq(f(a), f(b)) == leq(a, b),
    ensures
        insert_stable(s.map_values(f), f(x), leq) == insert_stable(s, x, leq).map_values(f),
    decreases s.len(),
{
    if s.len() > 0 {
        let rest = s.drop_last();
        lemma_insert_map(rest, x, leq, f);
        assert(s.map_values(f).drop_last() == rest.map_values(f));
        assert(leq(f(s.last()), f(x)) == leq(s.last(), x));
        let inner = insert_stable(rest, x, leq);
        assert(inner.push(s.last()).map_values(f) == inner.map_values(f).push(f(s.last())));
    }
    assert(s.push(x).map_values(f) == s.map_values(f).push(f(x)));
}

/// Sorting is the same before and after a change that the order does not see.
pub proof fn lemma_sort_map<T>(s: Seq<T>, leq: spec_fn(T, T) -> bool, f: spec_fn(T) -> T)
    requires
        forall|a: T, b: T| #[trigger] leq(f(a), f(b)) == leq(a, b),
    ensures
        sort_stable(s.map_values(f), leq) == sort_stable(s, leq).map_values(f),
    decreases s.len(),
{
    if s.len() > 0 {
        let rest = s.drop_last();
        lemma_sort_map(rest, leq, f);
        assert(s.map_values(f).drop_last() == rest.map_values(f));
        lemma_insert_map(sort_stable(rest, leq), s.last(), leq, f);
    } else {
        assert(s.map_values(f) == s);
    }
}

} // verus!
