use vstd::prelude::*;

verus! {

/// A bounded buffer of recently used items. New items enter at the front
/// and the items at the back fall off once the buffer is full; an item that
/// `lookup` finds is swapped to the front.
pub struct VecBuffer<T> {
    max_size: usize,
    vec: Vec<T>,
}

/// `s` with the items at `i` and `j` exchanged.
pub open spec fn swap_items<T>(s: Seq<T>, i: int, j: int) -> Seq<T> {
    s.update(i, s[j]).update(j, s[i])
}

/// What `push` keeps of the old items of a buffer of capacity `cap`: all of
/// them while there is room, else the first `cap - 1`.
pub open spec fn kept<T>(s: Seq<T>, cap: nat) -> Seq<T> {
    if s.len() < cap {
        s
    } else {
        s.take(cap - 1)
    }
}

impl<T> View for VecBuffer<T> {
    type V = Seq<T>;

    closed spec fn view(&self) -> Seq<T> {
        self.vec@
    }
}

impl<T> VecBuffer<T> {
    #[verifier::type_invariant]
    spec fn inv(self) -> bool {
        self.max_size > 0
    }

    /// The number of items the buffer holds at most.
    pub closed spec fn capacity(&self) -> nat {
        self.max_size as nat
    }
}

impl<T: Clone> VecBuffer<T> {
    /// An empty buffer that holds at most `capacity` items.
    pub fn with_capacity(capacity: usize) -> (b: Self)
        requires
            capacity > 0,
        ensures
            b@ == Seq::<T>::empty(),
            b.capacity() == capacity,
    {
        VecBuffer { max_size: capacity, vec: Vec::with_capacity(capacity) }
    }

    /// Swaps the item at `n` with the front item.
    fn swap_front(&mut self, n: usize)
        requires
            0 < n < old(self)@.len(),
        ensures
            final(self)@ == swap_items(old(self)@, 0, n as int),
            final(self).capacity() == old(self).capacity(),
    {
        proof {
            use_type_invariant(&*self);
        }
        let ghost start = self.vec@;
        let mut items: Vec<T> = Vec::new();
        std::mem::swap(&mut items, &mut self.vec);
        let a = items.remove(n);
        let b = items.remove(0);
        items.insert(0, a);
        items.insert(n, b);
        assert(items@ =~= swap_items(start, 0, n as int));
        self.vec = items;
    }

    /// Looks for the first of all items but the last for which `cond`
    /// holds; a hit is swapped to the front and its old index returned.
    pub(crate) fn promote<F: Fn(&T) -> bool>(&mut self, cond: F) -> (found: Option<usize>)
        requires
            forall|x: &T| cond.requires((x,)),
        ensures
            final(self).capacity() == old(self).capacity(),
            match found {
                Some(n) => {
                    &&& n + 1 < old(self)@.len()
                    &&& cond.ensures((&old(self)@[n as int],), true)
                    &&& forall|m: int| 0 <= m < n ==> cond.ensures((&old(self)@[m],), false)
                    &&& final(self)@ == swap_items(old(self)@, 0, n as int)
                },
                None => {
                    &&& final(self)@ == old(self)@
                    &&& forall|m: int|
                        0 <= m < old(self)@.len() - 1 ==> cond.ensures((&old(self)@[m],), false)
                },
            },
    {
        let ghost start = self.vec@;
        if self.vec.len() == 0 {
            return None;
        }
        let mut n: usize = 0;
        while n < self.vec.len() - 1
            invariant
                self.vec@ == start,
                start == old(self).vec@,
                self.max_size == old(self).max_size,
                0 < start.len(),
                n <= start.len() - 1,
                forall|x: &T| cond.requires((x,)),
                forall|m: int| 0 <= m < n ==> cond.ensures((&start[m],), false),
            decreases start.len() - 1 - n,
        {
            let hit = cond(&self.vec[n]);
            if hit {
                if n > 0 {
                    self.swap_front(n);
                } else {
                    assert(start =~= swap_items(start, 0, 0));
                }
                return Some(n);
            }
            n += 1;
        }
        None
    }

    /// The front item.
    pub(crate) fn first(&self) -> (r: &T)
        requires
            self@.len() > 0,
        ensures
            *r == self@[0],
    {
        &self.vec[0]
    }

    /// The buffered items, most recently used first.
    pub fn items(&self) -> (r: &[T])
        ensures
            r@ == self@,
    {
        self.vec.as_slice()
    }

    /// Looks for the first of all items but the last for which `cond`
    /// holds. A hit is swapped with the front item and a clone of it is
    /// returned; on a miss the buffer is left as it is. The last item is
    /// never looked at.
    pub fn lookup(&mut self, cond: impl Fn(&T) -> bool) -> (r: Option<T>)
        requires
            forall|x: &T| cond.requires((x,)),
        ensures
            final(self).capacity() == old(self).capacity(),
            final(self)@.to_multiset() == old(self)@.to_multiset(),
            match r {
                Some(v) => exists|n: int|
                    {
                        &&& 0 <= n && n + 1 < old(self)@.len()
                        &&& cond.ensures((&old(self)@[n],), true)
                        &&& forall|m: int| 0 <= m < n ==> cond.ensures((&old(self)@[m],), false)
                        &&& final(self)@ == swap_items(old(self)@, 0, n)
                        &&& cloned::<T>(final(self)@[0], v)
                    },
                None => {
                    &&& final(self)@ == old(self)@
                    &&& forall|m: int|
                        0 <= m < old(self)@.len() - 1 ==> cond.ensures((&old(self)@[m],), false)
                },
            },
    {
        let ghost start = self.vec@;
        match self.promote(cond) {
            Some(n) => {
                proof {
                    lemma_swap_keeps_multiset(start, 0, n as int);
                }
                let v = self.first().clone();
                Some(v)
            },
            None => None,
        }
    }

    /// Puts `value` at the front, first dropping items from the back until
    /// there is room for it.
    pub fn push(&mut self, value: T)
        ensures
            final(self).capacity() == old(self).capacity(),
            final(self)@ == seq![value] + kept(old(self)@, old(self).capacity()),
            final(self)@.len() <= final(self).capacity(),
    {
        proof {
            use_type_invariant(&*self);
        }
        let ghost start = self.vec@;
        let max_size = self.max_size;
        let mut items: Vec<T> = Vec::new();
        std::mem::swap(&mut items, &mut self.vec);
        while items.len() >= max_size
            invariant
                max_size > 0,
                items.len() <= start.len(),
                items@ == start.take(items.len() as int),
                start.len() >= max_size ==> items.len() >= max_size - 1,
                start.len() < max_size ==> items.len() == start.len(),
            decreases items.len(),
        {
            items.pop();
        }
        proof {
            if start.len() < max_size {
                assert(start.take(start.len() as int) =~= start);
            }
        }
        items.insert(0, value);
        assert(items@ =~= seq![value] + kept(start, max_size as nat));
        self.vec = items;
    }
}

/// Exchanging two items keeps the multiset of items.
pub proof fn lemma_swap_keeps_multiset<T>(s: Seq<T>, i: int, j: int)
    requires
        0 <= i < s.len(),
        0 <= j < s.len(),
    ensures
        swap_items(s, i, j).to_multiset() == s.to_multiset(),
{
    broadcast use vstd::seq_lib::group_to_multiset_ensures;
    let t = s.update(i, s[j]);
    assert(t.to_multiset() == s.to_multiset().remove(s[i]).insert(s[j]));
    assert(swap_items(s, i, j).to_multiset() == t.to_multiset().remove(t[j]).insert(s[i]));
    if i == j {
        assert(t =~= s);
    }
}

} // verus!
