use crate::radix::Radix;
use vstd::prelude::*;

verus! {

/// Entries that share one radix distance to the top key, with a cached
/// maximum key.
#[derive(Clone)]
pub(crate) struct Bucket<K, V> {
    pub(crate) max: Option<K>,
    pub(crate) elems: Vec<(K, V)>,
}

impl<K: Radix + Copy, V> Bucket<K, V> {
    pub(crate) open spec fn view(&self) -> Seq<(K, V)> {
        self.elems@
    }

    /// The cached maximum is absent exactly when the bucket is empty, and is
    /// otherwise a key of the bucket that ranks at or above all the others.
    pub(crate) open spec fn max_ok(&self) -> bool {
        match self.max {
            None => self.elems@.len() == 0,
            Some(m) => {
                &&& self.elems@.len() > 0
                &&& exists|i: int| 0 <= i < self.elems@.len() && #[trigger] self.elems@[i].0 == m
                &&& forall|i: int|
                    0 <= i < self.elems@.len() ==> #[trigger] self.elems@[i].0.radix_word()
                        <= m.radix_word()
            },
        }
    }

    pub(crate) fn new() -> (r: Self)
        ensures
            r@ == Seq::<(K, V)>::empty(),
            r.max_ok(),
    {
        Bucket { max: None, elems: Vec::new() }
    }

    pub(crate) fn push(&mut self, key: K, value: V)
        requires
            old(self).max_ok(),
        ensures
            final(self)@ == old(self)@.push((key, value)),
            final(self).max_ok(),
    {
        let raise = match self.max {
            None => true,
            Some(m) => m.radix_le(&key),
        };
        if raise {
            self.max = Some(key);
        }
        self.elems.push((key, value));
        proof {
            let n = self.elems@.len() - 1;
            assert(self.elems@[n as int].0 == key);
            if !raise {
                let m = self.max->0;
                let i = choose|i: int| 0 <= i < old(self).elems@.len() && #[trigger] old(
                    self,
                ).elems@[i].0 == m;
                assert(self.elems@[i].0 == m);
            }
        }
    }

    /// Removes the most recently pushed entry. The cache stays right because
    /// all entries of the bucket have the same key.
    pub(crate) fn pop(&mut self) -> (r: Option<(K, V)>)
        requires
            old(self).max_ok(),
            forall|i: int|
                0 <= i < old(self)@.len() ==> #[trigger] old(self)@[i].0 == old(self)@[0].0,
        ensures
            old(self)@.len() == 0 ==> r is None && final(self)@ == old(self)@,
            old(self)@.len() > 0 ==> r == Some(old(self)@.last()) && final(self)@
                == old(self)@.drop_last(),
            final(self).max_ok(),
    {
        let r = self.elems.pop();
        if self.elems.len() == 0 {
            self.max = None;
        } else {
            proof {
                let m = self.max->0;
                let i = choose|i: int| 0 <= i < old(self).elems@.len() && #[trigger] old(
                    self,
                ).elems@[i].0 == m;
                assert(old(self)@[i].0 == old(self)@[0].0);
                assert(self.elems@[0].0 == m);
            }
        }
        r
    }

    pub(crate) fn clear(&mut self)
        ensures
            final(self)@ == Seq::<(K, V)>::empty(),
            final(self).max_ok(),
    {
        self.elems.clear();
        self.max = None;
    }

    /// Empties the bucket and hands back what it held.
    pub(crate) fn take(&mut self) -> (r: Vec<(K, V)>)
        ensures
            r@ == old(self)@,
            final(self)@ == Seq::<(K, V)>::empty(),
            final(self).max_ok(),
    {
        let mut r: Vec<(K, V)> = Vec::new();
        std::mem::swap(&mut r, &mut self.elems);
        self.max = None;
        r
    }
    pub(crate) fn last(&self) -> (r: Option<&(K, V)>)
        ensures
            self@.len() == 0 ==> r is None,
            self@.len() > 0 ==> r == Some(&self@.last()),
    {
        let n = self.elems.len();
        if n == 0 {
            None
        } else {
            Some(&self.elems[n - 1])
        }
    }

    /// Releases spare capacity; the entries and the cache stay as they are.
    pub(crate) fn shrink_to_fit(&mut self)
        ensures
            final(self)@ == old(self)@,
            final(self).max == old(self).max,
    {
        shrink_vec(&mut self.elems);
    }
}

/// Relies on `Vec::shrink_to_fit`, which only lowers the capacity and keeps
/// the elements as they are.
#[verifier::external_body]
fn shrink_vec<T>(v: &mut Vec<T>)
    ensures
        final(v)@ == old(v)@,
{
    v.shrink_to_fit()
}

} // verus!
