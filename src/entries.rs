use crate::radix::{bit_distance, Radix};
use vstd::prelude::*;

verus! {

/// The values stored under `k` in `s`, in the order in which they stand.
pub open spec fn stack_of<K, V>(s: Seq<(K, V)>, k: K) -> Seq<V>
    decreases s.len(),
{
    if s.len() == 0 {
        Seq::empty()
    } else {
        let rest = stack_of(s.drop_last(), k);
        if s.last().0 == k {
            rest.push(s.last().1)
        } else {
            rest
        }
    }
}

/// `s` is ordered by key, lowest first.
pub open spec fn sorted_by_key<K: Radix, V>(s: Seq<(K, V)>) -> bool {
    forall|i: int, j: int|
        0 <= i < j < s.len() ==> #[trigger] s[i].0.radix_word() <= #[trigger] s[j].0.radix_word()
}

/// `s` with `e` placed right after every entry whose key ranks at or below
/// the key of `e`.
pub open spec fn insert_entry<K: Radix, V>(s: Seq<(K, V)>, e: (K, V)) -> Seq<(K, V)>
    decreases s.len(),
{
    if s.len() == 0 || s.last().0.radix_word() <= e.0.radix_word() {
        s.push(e)
    } else {
        insert_entry(s.drop_last(), e).push(s.last())
    }
}

/// `s` with the entries of `items` inserted one after another.
pub open spec fn insert_all<K: Radix, V>(s: Seq<(K, V)>, items: Seq<(K, V)>) -> Seq<(K, V)>
    decreases items.len(),
{
    if items.len() == 0 {
        s
    } else {
        insert_entry(insert_all(s, items.drop_last()), items.last())
    }
}

/// The entries of `s` whose key lies at radix distance `d` from `m`, in order.
pub open spec fn at_distance<K: Radix, V>(s: Seq<(K, V)>, m: K, d: nat) -> Seq<(K, V)>
    decreases s.len(),
{
    if s.len() == 0 {
        Seq::empty()
    } else {
        let rest = at_distance(s.drop_last(), m, d);
        if bit_distance(s.last().0.radix_word(), m.radix_word()) == d {
            rest.push(s.last())
        } else {
            rest
        }
    }
}

/// A key has stored values exactly when an entry carries it.
pub proof fn lemma_stack_nonempty<K, V>(s: Seq<(K, V)>, k: K)
    ensures
        stack_of(s, k).len() > 0 <==> exists|i: int| 0 <= i < s.len() && #[trigger] s[i].0 == k,
    decreases s.len(),
{
    if s.len() > 0 {
        lemma_stack_nonempty(s.drop_last(), k);
        if exists|i: int| 0 <= i < s.len() && #[trigger] s[i].0 == k {
            let i = choose|i: int| 0 <= i < s.len() && #[trigger] s[i].0 == k;
            if i < s.len() - 1 {
                assert(s.drop_last()[i].0 == k);
            }
        }
        if exists|i: int| 0 <= i < s.drop_last().len() && #[trigger] s.drop_last()[i].0 == k {
            let i = choose|i: int|
                0 <= i < s.drop_last().len() && #[trigger] s.drop_last()[i].0 == k;
            assert(s[i].0 == k);
        }
    }
}

/// Stacks of a concatenation are concatenations of stacks.
pub proof fn lemma_stack_concat<K, V>(a: Seq<(K, V)>, b: Seq<(K, V)>, k: K)
    ensures
        stack_of(a + b, k) == stack_of(a, k) + stack_of(b, k),
    decreases b.len(),
{
    if b.len() == 0 {
        assert(a + b == a);
    } else {
        assert((a + b).drop_last() == a + b.drop_last());
        lemma_stack_concat(a, b.drop_last(), k);
    }
}

/// Only entries at distance `d` from `m` are picked, and every key at that
/// distance keeps all its values.
pub proof fn lemma_at_distance<K: Radix, V>(s: Seq<(K, V)>, m: K, d: nat, k: K)
    ensures
        stack_of(at_distance(s, m, d), k) == if bit_distance(k.radix_word(), m.radix_word()) == d {
            stack_of(s, k)
        } else {
            Seq::empty()
        },
        forall|i: int|
            0 <= i < at_distance(s, m, d).len() ==> bit_distance(
                #[trigger] at_distance(s, m, d)[i].0.radix_word(),
                m.radix_word(),
            ) == d,
    decreases s.len(),
{
    if s.len() > 0 {
        lemma_at_distance(s.drop_last(), m, d, k);
        let rest = at_distance(s.drop_last(), m, d);
        assert(rest.push(s.last()).drop_last() == rest);
        assert forall|i: int|
            0 <= i < at_distance(s, m, d).len() implies bit_distance(
            #[trigger] at_distance(s, m, d)[i].0.radix_word(),
            m.radix_word(),
        ) == d by {
            if i < rest.len() {
                assert(at_distance(s, m, d)[i] == rest[i]);
            }
        }
    }
}

/// Inserting an entry adds its value on top of its key's stack and leaves
/// the other stacks alone.
pub proof fn lemma_insert_stack<K: Radix, V>(s: Seq<(K, V)>, e: (K, V), k: K)
    ensures
        stack_of(insert_entry(s, e), k) == if e.0 == k {
            stack_of(s, k).push(e.1)
        } else {
            stack_of(s, k)
        },
    decreases s.len(),
{
    if !(s.len() == 0 || s.last().0.radix_word() <= e.0.radix_word()) {
        lemma_insert_stack(s.drop_last(), e, k);
        assert(insert_entry(s, e).drop_last() == insert_entry(s.drop_last(), e));
    } else {
        assert(s.push(e).drop_last() == s);
    }
}

/// Inserting keeps a bound on all keys.
pub proof fn lemma_insert_bounded<K: Radix, V>(s: Seq<(K, V)>, e: (K, V), bound: nat)
    requires
        forall|i: int| 0 <= i < s.len() ==> #[trigger] s[i].0.radix_word() <= bound,
        e.0.radix_word() <= bound,
    ensures
        forall|i: int|
            0 <= i < insert_entry(s, e).len() ==> #[trigger] insert_entry(s, e)[i].0.radix_word()
                <= bound,
    decreases s.len(),
{
    if !(s.len() == 0 || s.last().0.radix_word() <= e.0.radix_word()) {
        let t = s.drop_last();
        assert forall|i: int| 0 <= i < t.len() implies #[trigger] t[i].0.radix_word() <= bound by {
            assert(t[i] == s[i]);
        }
        lemma_insert_bounded(t, e, bound);
        let r = insert_entry(s, e);
        assert(s[s.len() - 1] == s.last());
        assert forall|i: int| 0 <= i < r.len() implies #[trigger] r[i].0.radix_word() <= bound by {
            if i < r.len() - 1 {
                assert(r[i] == insert_entry(t, e)[i]);
            }
        }
    }
}

/// Inserting keeps the order, and adds the entry.
pub proof fn lemma_insert_sorted<K: Radix, V>(s: Seq<(K, V)>, e: (K, V))
    requires
        sorted_by_key(s),
    ensures
        sorted_by_key(insert_entry(s, e)),
        insert_entry(s, e).len() == s.len() + 1,
        insert_entry(s, e).to_multiset() == s.to_multiset().insert(e),
    decreases s.len(),
{
    if s.len() == 0 || s.last().0.radix_word() <= e.0.radix_word() {
        s.to_multiset_ensures();
    } else {
        let t = s.drop_last();
        let l = s.last();
        assert(sorted_by_key(t));
        assert forall|i: int| 0 <= i < t.len() implies #[trigger] t[i].0.radix_word()
            <= l.0.radix_word() by {
            assert(t[i] == s[i]);
        }
        lemma_insert_sorted(t, e);
        lemma_insert_bounded(t, e, l.0.radix_word());
        let r = insert_entry(t, e);
        r.to_multiset_ensures();
        t.to_multiset_ensures();
        assert(s == t.push(l));
        assert(r.push(l).to_multiset() =~= s.to_multiset().insert(e));
    }
}

/// Entries inserted one by one, into an ordered sequence, end up ordered
/// and all present.
pub proof fn lemma_insert_all<K: Radix, V>(s: Seq<(K, V)>, items: Seq<(K, V)>)
    requires
        sorted_by_key(s),
    ensures
        sorted_by_key(insert_all(s, items)),
        insert_all(s, items).to_multiset() == s.to_multiset().add(items.to_multiset()),
    decreases items.len(),
{
    if items.len() == 0 {
        items.to_multiset_ensures();
        assert(s.to_multiset().add(items.to_multiset()) =~= s.to_multiset());
    } else {
        let front = items.drop_last();
        let e = items.last();
        let r = insert_all(s, front);
        lemma_insert_all(s, front);
        lemma_insert_sorted(r, e);
        items.to_multiset_ensures();
        front.to_multiset_ensures();
        assert(items == front.push(e));
        assert(s.to_multiset().add(front.to_multiset()).insert(e) =~= s.to_multiset().add(
            front.to_multiset().insert(e),
        ));
    }
}

/// Sorting by pushing: entries inserted one by one, in any order, into an
/// empty sequence end up ordered by key with none lost or added, so that
/// taking the last entry again and again yields them greatest key first.
pub proof fn lemma_sort_equivalence<K: Radix, V>(items: Seq<(K, V)>)
    ensures
        sorted_by_key(insert_all(Seq::empty(), items)),
        insert_all(Seq::empty(), items).to_multiset() == items.to_multiset(),
        insert_all(Seq::empty(), items).len() == items.len(),
{
    let e = Seq::<(K, V)>::empty();
    lemma_insert_all(e, items);
    e.to_multiset_ensures();
    assert(e.to_multiset().add(items.to_multiset()) =~= items.to_multiset());
    insert_all(e, items).to_multiset_ensures();
    items.to_multiset_ensures();
}

/// Ties go last in, first out: after inserting `(k, a)` and then `(k, b)`,
/// the two stand side by side with `(k, b)` behind, so it is taken first.
pub proof fn lemma_tie_break<K: Radix, V>(s: Seq<(K, V)>, k: K, a: V, b: V)
    ensures
        exists|i: int|
            0 <= i && i + 1 < insert_entry(insert_entry(s, (k, a)), (k, b)).len() && #[trigger]
            insert_entry(insert_entry(s, (k, a)), (k, b))[i] == (k, a) && insert_entry(
                insert_entry(s, (k, a)),
                (k, b),
            )[i + 1] == (k, b),
    decreases s.len(),
{
    let r = insert_entry(insert_entry(s, (k, a)), (k, b));
    if s.len() == 0 || s.last().0.radix_word() <= k.radix_word() {
        assert(r == s.push((k, a)).push((k, b)));
        assert(r[s.len() as int] == (k, a));
    } else {
        let t = s.drop_last();
        lemma_tie_break(t, k, a, b);
        let rt = insert_entry(insert_entry(t, (k, a)), (k, b));
        let i = choose|i: int|
            0 <= i && i + 1 < rt.len() && #[trigger] rt[i] == (k, a) && rt[i + 1] == (k, b);
        assert(insert_entry(s, (k, a)) == insert_entry(t, (k, a)).push(s.last()));
        assert(insert_entry(s, (k, a)).last() == s.last());
        assert(insert_entry(s, (k, a)).drop_last() == insert_entry(t, (k, a)));
        assert(r == rt.push(s.last()));
        assert(r[i] == rt[i]);
    }
}

/// How often an entry occurs is how often its value occurs in its key's
/// stack.
pub proof fn lemma_stack_count<K, V>(s: Seq<(K, V)>, e: (K, V))
    ensures
        s.to_multiset().count(e) == stack_of(s, e.0).to_multiset().count(e.1),
    decreases s.len(),
{
    if s.len() == 0 {
        s.to_multiset_ensures();
        stack_of(s, e.0).to_multiset_ensures();
    } else {
        let t = s.drop_last();
        lemma_stack_count(t, e);
        assert(s == t.push(s.last()));
        t.to_multiset_ensures();
        stack_of(t, e.0).to_multiset_ensures();
    }
}

/// Sequences with the same stack for every key hold the same entries.
pub proof fn lemma_same_stacks<K, V>(a: Seq<(K, V)>, b: Seq<(K, V)>)
    requires
        forall|k: K| #[trigger] stack_of(a, k) == stack_of(b, k),
    ensures
        a.to_multiset() == b.to_multiset(),
{
    assert forall|e: (K, V)| a.to_multiset().count(e) == b.to_multiset().count(e) by {
        lemma_stack_count(a, e);
        lemma_stack_count(b, e);
        assert(stack_of(a, e.0) == stack_of(b, e.0));
    }
    assert(a.to_multiset() =~= b.to_multiset());
}

/// Every entry picked by `at_distance` is an entry of the sequence.
pub proof fn lemma_at_distance_member<K: Radix, V>(s: Seq<(K, V)>, m: K, d: nat, j: int)
    requires
        0 <= j < at_distance(s, m, d).len(),
    ensures
        exists|n: int| 0 <= n < s.len() && #[trigger] s[n] == at_distance(s, m, d)[j],
    decreases s.len(),
{
    let rest = at_distance(s.drop_last(), m, d);
    if j < rest.len() {
        lemma_at_distance_member(s.drop_last(), m, d, j);
        let n = choose|n: int|
            0 <= n < s.drop_last().len() && #[trigger] s.drop_last()[n] == rest[j];
        assert(s[n] == s.drop_last()[n]);
        assert(at_distance(s, m, d)[j] == rest[j]);
    } else {
        assert(s[s.len() - 1] == s.last());
    }
}

} // verus!
