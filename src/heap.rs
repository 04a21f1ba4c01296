use crate::bucket::Bucket;
use crate::entries::{
    at_distance, insert_all, insert_entry, lemma_at_distance, lemma_at_distance_member,
    lemma_insert_bounded, lemma_insert_sorted, lemma_insert_stack, lemma_same_stacks,
    lemma_stack_concat, lemma_stack_nonempty, sorted_by_key, stack_of,
};
use crate::radix::{
    bit_distance, lemma_bit_distance_bound, lemma_bit_distance_order,
    lemma_bit_distance_symmetric, lemma_bit_distance_triangle, Radix,
};
use vstd::prelude::*;
use vstd::std_specs::iter::IteratorSpec;

verus! {

/// A monotone priority queue implemented using a radix heap.
///
/// This is a max-heap. Once a top key is set, every key pushed must rank at
/// or below it; the top key only ever moves down, to the greatest key taken
/// out so far.
#[derive(Clone)]
pub struct RadixHeapMap<K, V> {
    len: usize,
    /// The current top key, or none if one is not set yet.
    top: Option<K>,
    /// One bucket for each radix distance to the top key, from 0 up to the
    /// key width.
    buckets: Vec<Bucket<K, V>>,
    /// The entries pushed before a top key is set.
    initial: Bucket<K, V>,
    /// All entries, in the reverse of the order in which `pop` hands them out.
    entries: Ghost<Seq<(K, V)>>,
}

/// Moves every entry of `src`, in order, to the bucket of its radix distance
/// to `m`.
fn redistribute<K: Radix + Copy, V>(buckets: &mut Vec<Bucket<K, V>>, src: Vec<(K, V)>, m: K)
    requires
        old(buckets)@.len() == K::radix_width() + 1,
        K::radix_width() < u32::MAX,
        forall|d: int| 0 <= d < old(buckets)@.len() ==> #[trigger] old(buckets)@[d].max_ok(),
    ensures
        final(buckets)@.len() == old(buckets)@.len(),
        forall|d: int|
            0 <= d < final(buckets)@.len() ==> #[trigger] final(buckets)@[d]@ == old(buckets)@[d]@
                + at_distance(src@, m, d as nat),
        forall|d: int| 0 <= d < final(buckets)@.len() ==> #[trigger] final(buckets)@[d].max_ok(),
{
    let ghost start = *buckets;
    for e in it: src.into_iter()
        invariant
            it.seq() == src@,
            buckets@.len() == K::radix_width() + 1,
            K::radix_width() < u32::MAX,
            forall|d: int| 0 <= d < buckets@.len() ==> #[trigger] buckets@[d].max_ok(),
            forall|d: int|
                0 <= d < buckets@.len() ==> #[trigger] buckets@[d]@ == start@[d]@ + at_distance(
                    src@.take(it.index() as int),
                    m,
                    d as nat,
                ),
    {
        let ghost n = it.index();
        let (k, v) = e;
        proof {
            K::lemma_radix_word(&k, &m);
            lemma_bit_distance_bound(k.radix_word(), m.radix_word(), K::radix_width());
        }
        let d = k.radix_distance(&m) as usize;
        buckets[d].push(k, v);
        proof {
            assert(src@.take(n + 1).drop_last() == src@.take(n as int));
            assert forall|c: int| 0 <= c < buckets@.len() implies #[trigger] buckets@[c]@
                == start@[c]@ + at_distance(src@.take(n + 1), m, c as nat) by {
                if c == d {
                    assert(start@[c]@ + at_distance(src@.take(n + 1), m, c as nat) == (start@[c]@
                        + at_distance(src@.take(n as int), m, c as nat)).push((k, v)));
                }
            }
        }
    }
    proof {
        assert(src@.take(src@.len() as int) == src@);
    }
}

/// An iterator over key-value pairs in a RadixHeapMap.
pub type Iter<'a, K, V> = std::vec::IntoIter<&'a (K, V)>;

/// An iterator over keys in a RadixHeapMap.
pub type Keys<'a, K> = std::vec::IntoIter<&'a K>;

/// An iterator over values in a RadixHeapMap.
pub type Values<'a, V> = std::vec::IntoIter<&'a V>;

/// An owning iterator over key-value pairs in a RadixHeapMap.
pub type IntoIter<K, V> = std::vec::IntoIter<(K, V)>;

/// The error of pushing a key that ranks above the top key.
#[derive(Debug, Clone, Copy, PartialEq, Eq)]
pub struct OutOfOrderKey;

impl<K: Radix + Copy, V> RadixHeapMap<K, V> {
    /// All stored entries, ordered by key, lowest first; entries with equal
    /// keys stand in the order in which they were pushed. `pop` takes the
    /// last one.
    pub closed spec fn view(&self) -> Seq<(K, V)> {
        self.entries@
    }

    /// The current top key.
    pub closed spec fn top_key(&self) -> Option<K> {
        self.top
    }

    /// The part of the heap that holds the entries with key `k`.
    spec fn home(&self, k: K) -> Seq<(K, V)> {
        match self.top {
            None => self.initial@,
            Some(t) => self.buckets@[bit_distance(k.radix_word(), t.radix_word()) as int]@,
        }
    }

    /// Where entries stand: in `initial` until a top key is set, then in the
    /// bucket of their radix distance to it, never above it.
    spec fn placed(&self) -> bool {
        match self.top {
            None => forall|d: int|
                0 <= d < self.buckets@.len() ==> (#[trigger] self.buckets@[d])@.len() == 0,
            Some(t) => {
                &&& self.initial@.len() == 0
                &&& forall|d: int, j: int|
                    0 <= d < self.buckets@.len() && 0 <= j < self.buckets@[d]@.len() ==> {
                        let k = (#[trigger] self.buckets@[d]@[j]).0;
                        k.radix_word() <= t.radix_word() && bit_distance(
                            k.radix_word(),
                            t.radix_word(),
                        ) == d
                    }
                &&& forall|i: int|
                    0 <= i < self.entries@.len() ==> #[trigger] self.entries@[i].0.radix_word()
                        <= t.radix_word()
            },
        }
    }

    /// The heap's invariant: one bucket per distance with a right cache of
    /// its maximum, the entries ordered by key, each key's values standing
    /// in push order in the part of the heap that its distance to the top
    /// key selects, and no key above the top key.
    pub closed spec fn wf(&self) -> bool {
        &&& K::radix_width() < u32::MAX
        &&& self.buckets@.len() == K::radix_width() + 1
        &&& self.len == self.entries@.len()
        &&& self.initial.max_ok()
        &&& forall|d: int| 0 <= d < self.buckets@.len() ==> #[trigger] self.buckets@[d].max_ok()
        &&& sorted_by_key(self.entries@)
        &&& forall|k: K| #[trigger] stack_of(self.entries@, k) == stack_of(self.home(k), k)
        &&& self.placed()
    }

    /// Every key ranks at or below the top key, and the entries are ordered.
    pub proof fn lemma_view(&self)
        requires
            self.wf(),
        ensures
            sorted_by_key(self@),
            self.top_key() matches Some(t) ==> forall|i: int|
                0 <= i < self@.len() ==> #[trigger] self@[i].0.radix_word() <= t.radix_word(),
    {
    }

    /// An entry found in a bucket is one of the heap's entries.
    proof fn lemma_bucket_entry(&self, d: int, j: int)
        requires
            self.wf(),
            self.top is Some,
            0 <= d < self.buckets@.len(),
            0 <= j < self.buckets@[d]@.len(),
        ensures
            exists|i: int|
                0 <= i < self.entries@.len() && #[trigger] self.entries@[i].0
                    == self.buckets@[d]@[j].0,
    {
        let k = self.buckets@[d]@[j].0;
        assert(self.home(k) == self.buckets@[d]@);
        lemma_stack_nonempty(self.buckets@[d]@, k);
        assert(stack_of(self.entries@, k) == stack_of(self.home(k), k));
        lemma_stack_nonempty(self.entries@, k);
    }

    /// An entry of the heap stands in the part that the key places it in.
    proof fn lemma_entry_home(&self, i: int)
        requires
            self.wf(),
            0 <= i < self.entries@.len(),
        ensures
            exists|j: int|
                0 <= j < self.home(self.entries@[i].0).len() && #[trigger] self.home(
                    self.entries@[i].0,
                )[j].0 == self.entries@[i].0,
    {
        let k = self.entries@[i].0;
        lemma_stack_nonempty(self.entries@, k);
        assert(stack_of(self.entries@, k) == stack_of(self.home(k), k));
        lemma_stack_nonempty(self.home(k), k);
    }

    /// With a nonempty bucket 0, the top key is the key of the last entry.
    proof fn lemma_top_is_last(&self)
        requires
            self.wf(),
            self.top is Some,
            self.buckets@[0]@.len() > 0,
        ensures
            self.entries@.len() > 0,
            self.entries@.last().0 == self.top->0,
    {
        let t = self.top->0;
        let k = self.buckets@[0]@[0].0;
        K::lemma_radix_word(&k, &t);
        self.lemma_bucket_entry(0, 0);
        let i = choose|i: int| 0 <= i < self.entries@.len() && #[trigger] self.entries@[i].0 == k;
        let last = self.entries@.last();
        assert(self.entries@[self.entries@.len() - 1] == last);
        K::lemma_radix_word(&last.0, &t);
    }

    /// Create an empty `RadixHeapMap`.
    pub fn new() -> (r: Self)
        requires
            K::radix_width() < u32::MAX,
        ensures
            r.wf(),
            r@ == Seq::<(K, V)>::empty(),
            r.top_key() is None,
    {
        let buckets = Self::empty_buckets();
        RadixHeapMap {
            len: 0,
            top: None,
            buckets,
            initial: Bucket::new(),
            entries: Ghost(Seq::empty()),
        }
    }

    /// Create an empty `RadixHeapMap` with the top key set to a specific
    /// value.
    pub fn new_at(top: K) -> (r: Self)
        requires
            K::radix_width() < u32::MAX,
        ensures
            r.wf(),
            r@ == Seq::<(K, V)>::empty(),
            r.top_key() == Some(top),
    {
        let buckets = Self::empty_buckets();
        let r = RadixHeapMap {
            len: 0,
            top: Some(top),
            buckets,
            initial: Bucket::new(),
            entries: Ghost(Seq::empty()),
        };
        proof {
            assert forall|k: K| #[trigger]
                stack_of(r.entries@, k) == stack_of(r.home(k), k) by {
                K::lemma_radix_word(&k, &top);
                lemma_bit_distance_bound(k.radix_word(), top.radix_word(), K::radix_width());
                let d = bit_distance(k.radix_word(), top.radix_word()) as int;
                assert(r.buckets@[d]@.len() == 0);
            }
        }
        r
    }

    /// One empty bucket for each radix distance, from 0 up to the key width.
    fn empty_buckets() -> (r: Vec<Bucket<K, V>>)
        requires
            K::radix_width() < u32::MAX,
        ensures
            r@.len() == K::radix_width() + 1,
            forall|d: int| 0 <= d < r@.len() ==> (#[trigger] r@[d])@.len() == 0 && r@[d].max_ok(),
    {
        let n = K::radix_bits();
        let mut buckets: Vec<Bucket<K, V>> = Vec::new();
        let mut i: u32 = 0;
        while i <= n
            invariant
                n == K::radix_width(),
                n < u32::MAX,
                i <= n + 1,
                buckets@.len() == i,
                forall|d: int|
                    0 <= d < buckets@.len() ==> (#[trigger] buckets@[d])@.len() == 0
                        && buckets@[d].max_ok(),
            decreases n + 1 - i,
        {
            buckets.push(Bucket::new());
            i = i + 1;
        }
        buckets
    }

    /// Sets the top key to the greatest key in the heap, and moves the
    /// entries with that key to bucket 0.
    pub fn constrain(&mut self)
        requires
            old(self).wf(),
        ensures
            final(self).wf(),
            final(self)@ == old(self)@,
            final(self).top_key() == if old(self)@.len() > 0 {
                Some(old(self)@.last().0)
            } else {
                old(self).top_key()
            },
            old(self).top_key() matches Some(t) ==> final(self).top_key() matches Some(u)
                && u.radix_word() <= t.radix_word(),
    {
        proof {
            old(self).lemma_view();
        }
        match self.top {
            Some(t) => {
                let nb = self.buckets.len();
                let mut i: usize = 0;
                while i < nb && self.buckets[i].elems.len() == 0
                    invariant
                        self.wf(),
                        *self == *old(self),
                        self.top == Some(t),
                        nb == self.buckets@.len(),
                        i <= nb,
                        forall|d: int| 0 <= d < i ==> (#[trigger] self.buckets@[d])@.len() == 0,
                    decreases nb - i,
                {
                    i = i + 1;
                }
                if i == nb {
                    proof {
                        if self.entries@.len() > 0 {
                            self.lemma_entry_home(0);
                            let k = self.entries@[0].0;
                            K::lemma_radix_word(&k, &t);
                            lemma_bit_distance_bound(
                                k.radix_word(),
                                t.radix_word(),
                                K::radix_width(),
                            );
                            let dk = bit_distance(k.radix_word(), t.radix_word()) as int;
                            assert(self.buckets@[dk]@.len() == 0);
                            assert(self.home(k).len() == 0);
                        }
                        assert(self.entries@.len() == 0);
                    }
                    return ;
                }
                if i == 0 {
                    proof {
                        self.lemma_top_is_last();
                    }
                    return ;
                }
                proof {
                    assert(self.buckets@[i as int].max_ok());
                }
                let m = self.buckets[i].max.unwrap();
                self.promote(i, t, m);
            },
            None => {
                if self.initial.elems.len() == 0 {
                    proof {
                        if self.entries@.len() > 0 {
                            self.lemma_entry_home(0);
                            assert(self.home(self.entries@[0].0).len() == 0);
                        }
                        assert(self.entries@.len() == 0);
                    }
                    return ;
                }
                let m = self.initial.max.unwrap();
                self.promote_initial(m);
            },
        }
    }

    /// Pushes a new key value pair onto the heap.
    ///
    /// Once a top key is set, the key must rank at or below it.
    pub fn push(&mut self, key: K, value: V)
        requires
            old(self).wf(),
            old(self).top_key() matches Some(t) ==> key.radix_word() <= t.radix_word(),
            old(self)@.len() < usize::MAX,
        ensures
            final(self).wf(),
            final(self)@ == insert_entry(old(self)@, (key, value)),
            final(self)@.len() == old(self)@.len() + 1,
            final(self).top_key() == old(self).top_key(),
    {
        let ghost e = self.entries@;
        let ghost old_buckets = self.buckets@;
        let ghost old_initial = self.initial@;
        match self.top {
            Some(t) => {
                proof {
                    K::lemma_radix_word(&key, &t);
                    lemma_bit_distance_bound(key.radix_word(), t.radix_word(), K::radix_width());
                }
                let d = key.radix_distance(&t) as usize;
                self.buckets[d].push(key, value);
            },
            None => {
                self.initial.push(key, value);
            },
        }
        self.len = self.len + 1;
        proof {
            self.entries@ = insert_entry(e, (key, value));
            lemma_insert_sorted(e, (key, value));
            if let Some(t) = self.top {
                lemma_insert_bounded(e, (key, value), t.radix_word());
                let d = bit_distance(key.radix_word(), t.radix_word()) as int;
                assert forall|c: int, j: int|
                    0 <= c < self.buckets@.len() && 0 <= j < self.buckets@[c]@.len() implies {
                    let k = (#[trigger] self.buckets@[c]@[j]).0;
                    k.radix_word() <= t.radix_word() && bit_distance(k.radix_word(), t.radix_word())
                        == c
                } by {
                    if c != d || j < old_buckets[c]@.len() {
                        assert(self.buckets@[c]@[j] == old_buckets[c]@[j]);
                    }
                }
            }
            assert forall|k: K| #[trigger]
                stack_of(self.entries@, k) == stack_of(self.home(k), k) by {
                assert(stack_of(e, k) == stack_of(old(self).home(k), k));
                lemma_insert_stack(e, (key, value), k);
                match self.top {
                    Some(t) => {
                        let dk = bit_distance(k.radix_word(), t.radix_word()) as int;
                        let d = bit_distance(key.radix_word(), t.radix_word()) as int;
                        K::lemma_radix_word(&k, &t);
                        lemma_bit_distance_bound(k.radix_word(), t.radix_word(), K::radix_width());
                        if dk == d {
                            assert(self.buckets@[d]@.drop_last() == old_buckets[d]@);
                        } else {
                            assert(self.buckets@[dk] == old_buckets[dk]);
                        }
                    },
                    None => {
                        assert(self.initial@.drop_last() == old_initial);
                    },
                }
            }
        }
    }

    /// Removes the greatest element from the heap and returns it, or `None`
    /// if empty.
    ///
    /// If there is a tie between multiple elements, the last inserted element
    /// is popped first. The top key becomes the extracted key.
    pub fn pop(&mut self) -> (r: Option<(K, V)>)
        requires
            old(self).wf(),
        ensures
            final(self).wf(),
            old(self)@.len() == 0 ==> r is None && final(self)@ == old(self)@
                && final(self).top_key() == old(self).top_key(),
            old(self)@.len() > 0 ==> r == Some(old(self)@.last()) && final(self)@ == old(
                self,
            )@.drop_last() && final(self).top_key() == Some(old(self)@.last().0),
            r is Some <==> old(self)@.len() > 0,
            final(self)@.len() == old(self)@.len() - (if r is Some {
                1int
            } else {
                0int
            }),
            old(self).top_key() matches Some(t) ==> final(self).top_key() matches Some(u)
                && u.radix_word() <= t.radix_word(),
    {
        proof {
            old(self).lemma_view();
        }
        if self.buckets[0].elems.len() == 0 {
            self.constrain();
        } else {
            proof {
                self.lemma_top_is_last();
            }
        }
        proof {
            self.lemma_ready();
        }
        let ghost prev = *self;
        let ghost e = self.entries@;
        let ghost b0 = self.buckets@[0]@;
        let r = self.buckets[0].pop();
        if r.is_some() {
            self.len = self.len - 1;
            proof {
                self.entries@ = e.drop_last();
                let t = self.top->0;
                assert forall|k: K| #[trigger]
                    stack_of(self.entries@, k) == stack_of(self.home(k), k) by {
                    K::lemma_radix_word(&k, &t);
                    lemma_bit_distance_bound(k.radix_word(), t.radix_word(), K::radix_width());
                    assert(stack_of(e, k) == stack_of(prev.home(k), k));
                    assert(e.last().0 == t);
                    if k == t {
                        assert(b0.last().0 == t);
                        assert(stack_of(e, k) == stack_of(e.drop_last(), k).push(e.last().1));
                        assert(stack_of(b0, k) == stack_of(b0.drop_last(), k).push(b0.last().1));
                        assert(prev.home(k) == b0);
                        assert(stack_of(e.drop_last(), k) =~= stack_of(e, k).drop_last());
                        assert(stack_of(b0.drop_last(), k) =~= stack_of(b0, k).drop_last());
                    } else {
                        let dk = bit_distance(k.radix_word(), t.radix_word()) as int;
                        assert(dk != 0);
                        assert(self.buckets@[dk] == prev.buckets@[dk]);
                    }
                }
                assert forall|i: int|
                    0 <= i < self.entries@.len() implies #[trigger] self.entries@[i].0.radix_word()
                    <= t.radix_word() by {
                    assert(self.entries@[i] == e[i]);
                }
                assert(sorted_by_key(self.entries@)) by {
                    assert forall|i: int, j: int|
                        0 <= i < j < self.entries@.len() implies #[trigger] self.entries@[i].0.radix_word()
                        <= #[trigger] self.entries@[j].0.radix_word() by {
                        assert(self.entries@[i] == e[i] && self.entries@[j] == e[j]);
                    }
                }
                assert forall|c: int, j: int|
                    0 <= c < self.buckets@.len() && 0 <= j < self.buckets@[c]@.len() implies {
                    let k = (#[trigger] self.buckets@[c]@[j]).0;
                    k.radix_word() <= t.radix_word() && bit_distance(k.radix_word(), t.radix_word())
                        == c
                } by {
                    if c == 0 {
                        assert(self.buckets@[c]@[j] == b0[j]);
                    }
                }
            }
        } else {
            proof {
                assert(self.buckets@[0]@.len() == 0);
                assert forall|k: K| #[trigger]
                    stack_of(self.entries@, k) == stack_of(self.home(k), k) by {
                    assert(stack_of(e, k) == stack_of(prev.home(k), k));
                    if let Some(t) = self.top {
                        K::lemma_radix_word(&k, &t);
                        lemma_bit_distance_bound(k.radix_word(), t.radix_word(), K::radix_width());
                        let dk = bit_distance(k.radix_word(), t.radix_word()) as int;
                        if dk == 0 {
                            assert(self.buckets@[0]@ == prev.buckets@[0]@);
                        } else {
                            assert(self.buckets@[dk] == prev.buckets@[dk]);
                        }
                    }
                }
                if let Some(t) = self.top {
                    assert forall|c: int, j: int|
                        0 <= c < self.buckets@.len() && 0 <= j < self.buckets@[c]@.len() implies {
                        let k = (#[trigger] self.buckets@[c]@[j]).0;
                        k.radix_word() <= t.radix_word() && bit_distance(
                            k.radix_word(),
                            t.radix_word(),
                        ) == c
                    } by {
                        assert(c != 0);
                        assert(self.buckets@[c] == prev.buckets@[c]);
                    }
                } else {
                    assert forall|c: int| 0 <= c < self.buckets@.len() implies (
                    #[trigger] self.buckets@[c])@.len() == 0 by {
                        if c != 0 {
                            assert(self.buckets@[c] == prev.buckets@[c]);
                        }
                    }
                }
            }
        }
        r
    }

    /// After `constrain`, bucket 0 holds the entries with the greatest key,
    /// equal to the top key, and is empty only if the heap is.
    proof fn lemma_ready(&self)
        requires
            self.wf(),
            self.entries@.len() > 0 ==> self.top == Some(self.entries@.last().0),
        ensures
            self.entries@.len() == 0 <==> self.buckets@[0]@.len() == 0,
            self.entries@.len() > 0 ==> self.buckets@[0]@.last() == self.entries@.last(),
            forall|i: int|
                0 <= i < self.buckets@[0]@.len() ==> #[trigger] self.buckets@[0]@[i].0
                    == self.buckets@[0]@[0].0,
    {
        let b0 = self.buckets@[0]@;
        if let Some(t) = self.top {
            assert forall|i: int| 0 <= i < b0.len() implies #[trigger] b0[i].0 == t by {
                K::lemma_radix_word(&b0[i].0, &t);
            }
        } else {
            assert(b0.len() == 0);
        }
        if b0.len() > 0 {
            self.lemma_bucket_entry(0, 0);
        }
        if self.entries@.len() > 0 {
            let l = self.entries@.last();
            let t = self.top->0;
            assert(l.0 == t);
            K::lemma_radix_word(&t, &t);
            assert(self.home(t) == b0);
            assert(stack_of(self.entries@, t) == stack_of(b0, t));
            assert(b0.len() > 0);
            assert(b0[b0.len() - 1] == b0.last());
            assert(b0.last().0 == t);
            assert(stack_of(self.entries@, t).last() == l.1);
            assert(stack_of(b0, t).last() == b0.last().1);
        }
    }

    /// Returns the greatest element of the heap without removing it, or
    /// `None` if empty.
    ///
    /// If there is a tie between multiple elements, the last inserted element
    /// is the one returned.
    pub fn peek(&mut self) -> (r: Option<&(K, V)>)
        requires
            old(self).wf(),
        ensures
            final(self).wf(),
            final(self)@ == old(self)@,
            old(self)@.len() == 0 ==> r is None && final(self).top_key() == old(self).top_key(),
            old(self)@.len() > 0 ==> r == Some(&old(self)@.last()) && final(self).top_key() == Some(
                old(self)@.last().0,
            ),
    {
        if self.buckets[0].elems.len() == 0 {
            self.constrain();
        } else {
            proof {
                self.lemma_top_is_last();
            }
        }
        proof {
            self.lemma_ready();
        }
        self.buckets[0].last()
    }

    /// Returns the number of elements in the heap.
    pub fn len(&self) -> (r: usize)
        requires
            self.wf(),
        ensures
            r == self@.len(),
    {
        self.len
    }

    /// Returns true if there are no elements in the heap.
    pub fn is_empty(&self) -> (r: bool)
        requires
            self.wf(),
        ensures
            r == (self@.len() == 0),
    {
        self.len() == 0
    }

    /// The current top key. All keys pushed onto the heap must rank at or
    /// below this value.
    pub fn top(&self) -> (r: Option<K>)
        ensures
            r == self.top_key(),
    {
        self.top
    }

    /// Drops all items from the `RadixHeapMap` and sets the top key to `None`.
    pub fn clear(&mut self)
        requires
            old(self).wf(),
        ensures
            final(self).wf(),
            final(self)@ == Seq::<(K, V)>::empty(),
            final(self).top_key() is None,
    {
        self.len = 0;
        self.top = None;
        self.initial.clear();
        let n = self.buckets.len();
        let mut i: usize = 0;
        while i < n
            invariant
                n == self.buckets@.len(),
                n == K::radix_width() + 1,
                K::radix_width() < u32::MAX,
                i <= n,
                self.initial@.len() == 0,
                self.initial.max_ok(),
                self.len == 0,
                self.top is None,
                forall|d: int| 0 <= d < n ==> #[trigger] self.buckets@[d].max_ok(),
                forall|d: int| 0 <= d < i ==> (#[trigger] self.buckets@[d])@.len() == 0,
            decreases n - i,
        {
            self.buckets[i].clear();
            i = i + 1;
        }
        proof {
            self.entries@ = Seq::empty();
        }
    }

    /// Drops all items from the `RadixHeapMap` and sets the top key to a
    /// specific value.
    pub fn clear_to(&mut self, top: K)
        requires
            old(self).wf(),
        ensures
            final(self).wf(),
            final(self)@ == Seq::<(K, V)>::empty(),
            final(self).top_key() == Some(top),
    {
        self.clear();
        proof {
            if self.initial@.len() > 0 {
                let k = self.initial@[0].0;
                lemma_stack_nonempty(self.initial@, k);
                assert(stack_of(self.entries@, k) == stack_of(self.home(k), k));
            }
        }
        self.top = Some(top);
        proof {
            assert forall|k: K| #[trigger]
                stack_of(self.entries@, k) == stack_of(self.home(k), k) by {
                K::lemma_radix_word(&k, &top);
                lemma_bit_distance_bound(k.radix_word(), top.radix_word(), K::radix_width());
                let d = bit_distance(k.radix_word(), top.radix_word()) as int;
                assert(self.buckets@[d]@.len() == 0);
            }
        }
    }

    /// Pushes a new key value pair onto the heap, unless a top key is set
    /// and the key ranks above it: then the heap is left as it is and the
    /// error is returned.
    pub fn try_push(&mut self, key: K, value: V) -> (r: Result<(), OutOfOrderKey>)
        requires
            old(self).wf(),
            old(self)@.len() < usize::MAX,
        ensures
            final(self).wf(),
            final(self).top_key() == old(self).top_key(),
            r is Err <==> (old(self).top_key() matches Some(t) && t.radix_word()
                < key.radix_word()),
            r is Err ==> final(self)@ == old(self)@,
            r is Ok ==> final(self)@ == insert_entry(old(self)@, (key, value)),
            final(self)@.len() == old(self)@.len() + (if r is Ok {
                1int
            } else {
                0int
            }),
    {
        if let Some(t) = self.top {
            if !key.radix_le(&t) {
                return Err(OutOfOrderKey);
            }
        }
        self.push(key, value);
        Ok(())
    }

    /// Discards as much additional capacity as possible.
    pub fn shrink_to_fit(&mut self)
        requires
            old(self).wf(),
        ensures
            final(self).wf(),
            final(self)@ == old(self)@,
            final(self).top_key() == old(self).top_key(),
    {
        self.initial.shrink_to_fit();
        let n = self.buckets.len();
        let mut i: usize = 0;
        while i < n
            invariant
                n == self.buckets@.len(),
                i <= n,
                self.len == old(self).len,
                self.top == old(self).top,
                self.entries == old(self).entries,
                self.initial@ == old(self).initial@,
                self.initial.max == old(self).initial.max,
                forall|d: int|
                    0 <= d < n ==> (#[trigger] self.buckets@[d])@ == old(self).buckets@[d]@
                        && self.buckets@[d].max == old(self).buckets@[d].max,
            decreases n - i,
        {
            self.buckets[i].shrink_to_fit();
            i = i + 1;
        }
        proof {
            assert forall|k: K| #[trigger]
                stack_of(self.entries@, k) == stack_of(self.home(k), k) by {
                assert(stack_of(self.entries@, k) == stack_of(old(self).home(k), k));
                if let Some(t) = self.top {
                    K::lemma_radix_word(&k, &t);
                    lemma_bit_distance_bound(k.radix_word(), t.radix_word(), K::radix_width());
                    let d = bit_distance(k.radix_word(), t.radix_word()) as int;
                    assert(self.buckets@[d]@ == old(self).buckets@[d]@);
                }
            }
            assert forall|d: int| 0 <= d < n implies #[trigger] self.buckets@[d].max_ok() by {
                assert(old(self).buckets@[d].max_ok());
                assert(self.buckets@[d]@ == old(self).buckets@[d]@);
            }
            if let Some(t) = self.top {
                assert forall|c: int, j: int|
                    0 <= c < self.buckets@.len() && 0 <= j < self.buckets@[c]@.len() implies {
                    let k = (#[trigger] self.buckets@[c]@[j]).0;
                    k.radix_word() <= t.radix_word() && bit_distance(k.radix_word(), t.radix_word())
                        == c
                } by {
                    assert(self.buckets@[c]@ == old(self).buckets@[c]@);
                    assert(self.buckets@[c]@[j] == old(self).buckets@[c]@[j]);
                }
            } else {
                assert forall|c: int| 0 <= c < self.buckets@.len() implies (
                #[trigger] self.buckets@[c])@.len() == 0 by {
                    assert(self.buckets@[c]@ == old(self).buckets@[c]@);
                }
            }
        }
    }

    /// The values under key `k` found in `initial` and in buckets `0..i`.
    spec fn gathered(&self, i: int, k: K) -> Seq<V> {
        stack_of(self.initial@, k) + match self.top {
            None => Seq::empty(),
            Some(t) => if bit_distance(k.radix_word(), t.radix_word()) < i {
                stack_of(self.buckets@[bit_distance(k.radix_word(), t.radix_word()) as int]@, k)
            } else {
                Seq::empty()
            },
        }
    }

    proof fn lemma_gathered_start(&self, k: K)
        requires
            self.wf(),
        ensures
            self.gathered(0, k) == stack_of(self.initial@, k),
    {
        assert(stack_of(self.initial@, k) + Seq::<V>::empty() == stack_of(self.initial@, k));
    }

    proof fn lemma_gathered_step(&self, i: int, k: K)
        requires
            self.wf(),
            0 <= i < self.buckets@.len(),
        ensures
            self.gathered(i + 1, k) == self.gathered(i, k) + stack_of(self.buckets@[i]@, k),
    {
        let b = self.buckets@[i]@;
        match self.top {
            None => {
                assert(b.len() == 0);
                assert(self.gathered(i, k) + stack_of(b, k) == self.gathered(i, k));
            },
            Some(t) => {
                let d = bit_distance(k.radix_word(), t.radix_word());
                if d != i && stack_of(b, k).len() > 0 {
                    lemma_stack_nonempty(b, k);
                    let j = choose|j: int| 0 <= j < b.len() && #[trigger] b[j].0 == k;
                    assert(self.buckets@[i]@[j].0 == k);
                }
                assert(stack_of(self.initial@, k).len() == 0);
                if d == i {
                    assert(self.gathered(i, k) + stack_of(b, k) =~= self.gathered(i + 1, k));
                } else {
                    assert(self.gathered(i, k) + stack_of(b, k) =~= self.gathered(i + 1, k));
                }
            },
        }
    }

    proof fn lemma_gathered_all(&self, k: K)
        requires
            self.wf(),
        ensures
            self.gathered(self.buckets@.len() as int, k) == stack_of(self.entries@, k),
    {
        match self.top {
            None => {
                assert(stack_of(self.initial@, k) + Seq::<V>::empty() == stack_of(
                    self.initial@,
                    k,
                ));
            },
            Some(t) => {
                K::lemma_radix_word(&k, &t);
                lemma_bit_distance_bound(k.radix_word(), t.radix_word(), K::radix_width());
                assert(self.initial@.len() == 0);
                assert(Seq::<V>::empty() + stack_of(self.home(k), k) == stack_of(self.home(k), k));
            },
        }
    }

    /// References to all entries, in no particular order.
    fn entry_refs(&self) -> (r: Vec<&(K, V)>)
        requires
            self.wf(),
        ensures
            r@.map_values(|p: &(K, V)| *p).to_multiset() == self@.to_multiset(),
    {
        let mut r: Vec<&(K, V)> = Vec::new();
        let ghost mut g: Seq<(K, V)> = Seq::empty();
        let n0 = self.initial.elems.len();
        let mut j: usize = 0;
        while j < n0
            invariant
                self.wf(),
                n0 == self.initial@.len(),
                j <= n0,
                r@.len() == g.len(),
                forall|x: int| 0 <= x < r@.len() ==> *r@[x] == g[x],
                g == self.initial@.take(j as int),
            decreases n0 - j,
        {
            r.push(&self.initial.elems[j]);
            proof {
                g = g.push(self.initial@[j as int]);
                assert(g == self.initial@.take(j + 1));
            }
            j = j + 1;
        }
        proof {
            assert(g == self.initial@.take(n0 as int));
            assert(self.initial@.take(n0 as int) == self.initial@);
            assert forall|k: K| #[trigger] stack_of(g, k) == self.gathered(0, k) by {
                self.lemma_gathered_start(k);
            }
        }
        let nb = self.buckets.len();
        let mut i: usize = 0;
        while i < nb
            invariant
                self.wf(),
                nb == self.buckets@.len(),
                i <= nb,
                r@.len() == g.len(),
                forall|x: int| 0 <= x < r@.len() ==> *r@[x] == g[x],
                forall|k: K| #[trigger] stack_of(g, k) == self.gathered(i as int, k),
            decreases nb - i,
        {
            let ghost g0 = g;
            let len = self.buckets[i].elems.len();
            let mut j: usize = 0;
            while j < len
                invariant
                    self.wf(),
                    nb == self.buckets@.len(),
                    i < nb,
                    len == self.buckets@[i as int]@.len(),
                    j <= len,
                    r@.len() == g.len(),
                    forall|x: int| 0 <= x < r@.len() ==> *r@[x] == g[x],
                    g == g0 + self.buckets@[i as int]@.take(j as int),
                decreases len - j,
            {
                r.push(&self.buckets[i].elems[j]);
                proof {
                    g = g.push(self.buckets@[i as int]@[j as int]);
                    assert(g == g0 + self.buckets@[i as int]@.take(j + 1));
                }
                j = j + 1;
            }
            proof {
                assert(self.buckets@[i as int]@.take(len as int) == self.buckets@[i as int]@);
                assert forall|k: K| #[trigger] stack_of(g, k) == self.gathered(i + 1, k) by {
                    lemma_stack_concat(g0, self.buckets@[i as int]@, k);
                    self.lemma_gathered_step(i as int, k);
                }
            }
            i = i + 1;
        }
        proof {
            assert forall|k: K| #[trigger] stack_of(g, k) == stack_of(self.entries@, k) by {
                self.lemma_gathered_all(k);
            }
            lemma_same_stacks(g, self.entries@);
            assert(r@.map_values(|p: &(K, V)| *p) =~= g);
        }
        r
    }

    /// Returns an iterator of all key-value pairs in the RadixHeapMap in
    /// arbitrary order.
    pub fn iter(&self) -> (r: Iter<'_, K, V>)
        requires
            self.wf(),
        ensures
            r.remaining().map_values(|p: &(K, V)| *p).to_multiset() == self@.to_multiset(),
    {
        let refs = self.entry_refs();
        let r = refs.into_iter();
        proof {
            broadcast use vstd::std_specs::vec::axiom_spec_into_iter;

        }
        r
    }

    /// Returns an iterator of all keys in the RadixHeapMap in arbitrary
    /// order.
    pub fn keys(&self) -> (r: Keys<'_, K>)
        requires
            self.wf(),
        ensures
            exists|s: Seq<(K, V)>|
                #[trigger] s.to_multiset() == self@.to_multiset() && r.remaining().map_values(|k: &K| *k)
                    == s.map_values(|e: (K, V)| e.0),
    {
        let refs = self.entry_refs();
        let mut out: Vec<&K> = Vec::new();
        let n = refs.len();
        let mut i: usize = 0;
        while i < n
            invariant
                n == refs@.len(),
                i <= n,
                out@.len() == i,
                forall|x: int| 0 <= x < i ==> *out@[x] == refs@[x].0,
            decreases n - i,
        {
            let p: &(K, V) = refs[i];
            out.push(&p.0);
            i = i + 1;
        }
        let r = out.into_iter();
        proof {
            broadcast use vstd::std_specs::vec::axiom_spec_into_iter;

            let s = refs@.map_values(|p: &(K, V)| *p);
            assert(r.remaining().map_values(|k: &K| *k) =~= s.map_values(|e: (K, V)| e.0));
        }
        r
    }

    /// Returns an iterator of all values in the RadixHeapMap in arbitrary
    /// order.
    pub fn values(&self) -> (r: Values<'_, V>)
        requires
            self.wf(),
        ensures
            exists|s: Seq<(K, V)>|
                #[trigger] s.to_multiset() == self@.to_multiset() && r.remaining().map_values(|v: &V| *v)
                    == s.map_values(|e: (K, V)| e.1),
    {
        let refs = self.entry_refs();
        let mut out: Vec<&V> = Vec::new();
        let n = refs.len();
        let mut i: usize = 0;
        while i < n
            invariant
                n == refs@.len(),
                i <= n,
                out@.len() == i,
                forall|x: int| 0 <= x < i ==> *out@[x] == refs@[x].1,
            decreases n - i,
        {
            let p: &(K, V) = refs[i];
            out.push(&p.1);
            i = i + 1;
        }
        let r = out.into_iter();
        proof {
            broadcast use vstd::std_specs::vec::axiom_spec_into_iter;

            let s = refs@.map_values(|p: &(K, V)| *p);
            assert(r.remaining().map_values(|v: &V| *v) =~= s.map_values(|e: (K, V)| e.1));
        }
        r
    }

    /// Consumes the heap and returns an iterator of all its key-value pairs
    /// in arbitrary order.
    pub fn into_iter(self) -> (r: IntoIter<K, V>)
        requires
            self.wf(),
        ensures
            r.remaining().to_multiset() == self@.to_multiset(),
    {
        let ghost orig = self;
        let mut me = self;
        let mut all = me.initial.take();
        proof {
            assert forall|k: K| #[trigger] stack_of(all@, k) == orig.gathered(0, k) by {
                orig.lemma_gathered_start(k);
            }
        }
        let nb = me.buckets.len();
        let mut i: usize = 0;
        while i < nb
            invariant
                orig.wf(),
                nb == orig.buckets@.len(),
                nb == me.buckets@.len(),
                i <= nb,
                forall|d: int| i <= d < nb ==> (#[trigger] me.buckets@[d])@ == orig.buckets@[d]@,
                forall|k: K| #[trigger] stack_of(all@, k) == orig.gathered(i as int, k),
            decreases nb - i,
        {
            let ghost a0 = all@;
            let mut moved = me.buckets[i].take();
            all.append(&mut moved);
            proof {
                assert forall|d: int| i + 1 <= d < nb implies (#[trigger] me.buckets@[d])@
                    == orig.buckets@[d]@ by {
                }
                assert forall|k: K| #[trigger] stack_of(all@, k) == orig.gathered(i + 1, k) by {
                    lemma_stack_concat(a0, orig.buckets@[i as int]@, k);
                    orig.lemma_gathered_step(i as int, k);
                }
            }
            i = i + 1;
        }
        proof {
            assert forall|k: K| #[trigger] stack_of(all@, k) == stack_of(orig.entries@, k) by {
                orig.lemma_gathered_all(k);
            }
            lemma_same_stacks(all@, orig.entries@);
        }
        let r = all.into_iter();
        proof {
            broadcast use vstd::std_specs::vec::axiom_spec_into_iter;

        }
        r
    }

    /// Pushes every pair of `items`, in order.
    pub fn extend(&mut self, items: Vec<(K, V)>)
        requires
            old(self).wf(),
            old(self).top_key() matches Some(t) ==> forall|i: int|
                0 <= i < items@.len() ==> #[trigger] items@[i].0.radix_word() <= t.radix_word(),
            old(self)@.len() + items@.len() < usize::MAX,
        ensures
            final(self).wf(),
            final(self)@ == insert_all(old(self)@, items@),
            final(self).top_key() == old(self).top_key(),
    {
        let ghost start = self@;
        for e in it: items.into_iter()
            invariant
                it.seq() == items@,
                self.wf(),
                self.top_key() == old(self).top_key(),
                old(self).top_key() matches Some(t) ==> forall|i: int|
                    0 <= i < items@.len() ==> #[trigger] items@[i].0.radix_word()
                        <= t.radix_word(),
                start.len() + items@.len() < usize::MAX,
                self@ == insert_all(start, items@.take(it.index() as int)),
                self@.len() == start.len() + it.index(),
        {
            let ghost n = it.index();
            let (k, v) = e;
            self.push(k, v);
            proof {
                let t = items@.take(n + 1);
                assert(t.drop_last() == items@.take(n as int));
                assert(t.last() == items@[n as int]);
            }
        }
        proof {
            assert(items@.take(items@.len() as int) == items@);
        }
    }

    /// Creates a `RadixHeapMap` with the top key unset, holding the pairs of
    /// `items` pushed in order.
    pub fn from_iter(items: Vec<(K, V)>) -> (r: Self)
        requires
            K::radix_width() < u32::MAX,
            items@.len() < usize::MAX,
        ensures
            r.wf(),
            r@ == insert_all(Seq::empty(), items@),
            r.top_key() is None,
    {
        let mut heap = Self::new();
        heap.extend(items);
        heap
    }

    /// Makes the maximum `m` of bucket `i`, the first nonempty one, the new
    /// top key, and spreads the bucket's entries by their distance to it.
    fn promote(&mut self, i: usize, t: K, m: K)
        requires
            old(self).wf(),
            old(self).top == Some(t),
            0 < i < old(self).buckets@.len(),
            forall|d: int| 0 <= d < i ==> (#[trigger] old(self).buckets@[d])@.len() == 0,
            old(self).buckets@[i as int]@.len() > 0,
            old(self).buckets@[i as int].max == Some(m),
        ensures
            final(self).wf(),
            final(self)@ == old(self)@,
            old(self)@.len() > 0,
            final(self).top_key() == Some(old(self)@.last().0),
    {
        let ghost old_buckets = self.buckets@;
        let ghost e = self.entries@;
        let ghost src = old_buckets[i as int]@;
        proof {
            assert(old_buckets[i as int].max_ok());
            let j = choose|j: int|
                0 <= j < old_buckets[i as int].elems@.len() && #[trigger] old_buckets[i as int].elems@[j].0
                    == m;
            assert(old_buckets[i as int]@[j].0 == m);
            K::lemma_radix_word(&m, &t);
            // Every entry ranks at or below `m`, and `m` is among them.
            assert forall|n: int| 0 <= n < e.len() implies #[trigger] e[n].0.radix_word()
                <= m.radix_word() by {
                self.lemma_entry_home(n);
                let k = e[n].0;
                K::lemma_radix_word(&k, &t);
                lemma_bit_distance_bound(k.radix_word(), t.radix_word(), K::radix_width());
                let dk = bit_distance(k.radix_word(), t.radix_word()) as int;
                let jj = choose|jj: int|
                    0 <= jj < self.home(k).len() && #[trigger] self.home(k)[jj].0 == k;
                assert(old_buckets[dk]@[jj].0 == k);
                if dk > i {
                    lemma_bit_distance_order(m.radix_word(), k.radix_word(), t.radix_word());
                } else if dk == i {
                    assert(src[jj].0 == k);
                }
            }
            self.lemma_bucket_entry(i as int, j);
            let n0 = choose|n: int| 0 <= n < e.len() && #[trigger] e[n].0 == m;
            assert(e[e.len() - 1] == e.last());
            K::lemma_radix_word(&e.last().0, &m);
        }
        self.top = Some(m);
        let moved = self.buckets[i].take();
        redistribute(&mut self.buckets, moved, m);
        proof {
            lemma_bit_distance_symmetric(t.radix_word(), m.radix_word());
            assert forall|k: K| #[trigger]
                stack_of(self.entries@, k) == stack_of(self.home(k), k) by {
                K::lemma_radix_word(&k, &t);
                K::lemma_radix_word(&k, &m);
                lemma_bit_distance_bound(k.radix_word(), t.radix_word(), K::radix_width());
                lemma_bit_distance_bound(k.radix_word(), m.radix_word(), K::radix_width());
                lemma_bit_distance_triangle(k.radix_word(), t.radix_word(), m.radix_word());
                let dk = bit_distance(k.radix_word(), t.radix_word());
                let dm = bit_distance(k.radix_word(), m.radix_word());
                lemma_at_distance(src, m, dm, k);
                lemma_stack_concat(
                    if dm == i {
                        Seq::<(K, V)>::empty()
                    } else {
                        old_buckets[dm as int]@
                    },
                    at_distance(src, m, dm),
                    k,
                );
                assert(stack_of(e, k) == stack_of(old_buckets[dk as int]@, k));
                if dk != i {
                    if stack_of(src, k).len() > 0 {
                        lemma_stack_nonempty(src, k);
                        let jj = choose|jj: int| 0 <= jj < src.len() && #[trigger] src[jj].0 == k;
                        assert(old_buckets[i as int]@[jj].0 == k);
                    }
                    if dk < i {
                        assert(old_buckets[dk as int]@.len() == 0);
                    }
                } else {
                    assert(old_buckets[dm as int]@.len() == 0);
                }
                assert(Seq::<(K, V)>::empty() + at_distance(src, m, dm) == at_distance(
                    src,
                    m,
                    dm,
                ));
            }
            assert forall|d: int, j: int|
                0 <= d < self.buckets@.len() && 0 <= j < self.buckets@[d]@.len() implies {
                let k = (#[trigger] self.buckets@[d]@[j]).0;
                k.radix_word() <= m.radix_word() && bit_distance(k.radix_word(), m.radix_word())
                    == d
            } by {
                let k = self.buckets@[d]@[j].0;
                let olds = if d == i {
                    Seq::<(K, V)>::empty()
                } else {
                    old_buckets[d]@
                };
                assert(self.buckets@[d]@ == olds + at_distance(src, m, d as nat));
                if j < olds.len() {
                    assert(old_buckets[d]@[j].0 == k);
                    K::lemma_radix_word(&k, &t);
                    lemma_bit_distance_triangle(k.radix_word(), t.radix_word(), m.radix_word());
                    lemma_bit_distance_order(m.radix_word(), k.radix_word(), t.radix_word());
                } else {
                    let jj = j - olds.len();
                    lemma_at_distance(src, m, d as nat, k);
                    lemma_at_distance_member(src, m, d as nat, jj);
                    let n = choose|n: int|
                        0 <= n < src.len() && #[trigger] src[n] == at_distance(
                            src,
                            m,
                            d as nat,
                        )[jj];
                    assert(old_buckets[i as int]@[n] == src[n]);
                }
            }
        }
    }

    /// Sets the first top key: the maximum `m` of the entries pushed so far,
    /// which move to the buckets of their distance to it.
    fn promote_initial(&mut self, m: K)
        requires
            old(self).wf(),
            old(self).top is None,
            old(self).initial@.len() > 0,
            old(self).initial.max == Some(m),
        ensures
            final(self).wf(),
            final(self)@ == old(self)@,
            old(self)@.len() > 0,
            final(self).top_key() == Some(old(self)@.last().0),
    {
        let ghost old_buckets = self.buckets@;
        let ghost e = self.entries@;
        let ghost src = self.initial@;
        proof {
            assert(self.initial.max_ok());
            let j = choose|j: int|
                0 <= j < self.initial.elems@.len() && #[trigger] self.initial.elems@[j].0 == m;
            assert(src[j].0 == m);
            assert forall|n: int| 0 <= n < e.len() implies #[trigger] e[n].0.radix_word()
                <= m.radix_word() by {
                self.lemma_entry_home(n);
                let k = e[n].0;
                let jj = choose|jj: int|
                    0 <= jj < self.home(k).len() && #[trigger] self.home(k)[jj].0 == k;
                assert(src[jj].0 == k);
            }
            lemma_stack_nonempty(src, m);
            assert(stack_of(e, m) == stack_of(src, m));
            lemma_stack_nonempty(e, m);
            assert(e[e.len() - 1] == e.last());
            K::lemma_radix_word(&e.last().0, &m);
        }
        self.top = Some(m);
        let moved = self.initial.take();
        redistribute(&mut self.buckets, moved, m);
        proof {
            assert forall|k: K| #[trigger]
                stack_of(self.entries@, k) == stack_of(self.home(k), k) by {
                K::lemma_radix_word(&k, &m);
                lemma_bit_distance_bound(k.radix_word(), m.radix_word(), K::radix_width());
                let dm = bit_distance(k.radix_word(), m.radix_word());
                lemma_at_distance(src, m, dm, k);
                assert(old_buckets[dm as int]@.len() == 0);
                assert(old_buckets[dm as int]@ + at_distance(src, m, dm) == at_distance(
                    src,
                    m,
                    dm,
                ));
            }
            assert forall|d: int, j: int|
                0 <= d < self.buckets@.len() && 0 <= j < self.buckets@[d]@.len() implies {
                let k = (#[trigger] self.buckets@[d]@[j]).0;
                k.radix_word() <= m.radix_word() && bit_distance(k.radix_word(), m.radix_word())
                    == d
            } by {
                let k = self.buckets@[d]@[j].0;
                assert(old_buckets[d]@.len() == 0);
                assert(self.buckets@[d]@ == old_buckets[d]@ + at_distance(src, m, d as nat));
                lemma_at_distance(src, m, d as nat, k);
                lemma_at_distance_member(src, m, d as nat, j);
            }
        }
    }
}

} // verus!
