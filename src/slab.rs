//! A table of slots addressed by stable tokens, reusing freed slots.
use vstd::prelude::*;

verus! {

/// Up to `capacity` values, each under the token `first + i` of its slot `i`.
pub struct Slab<T> {
    slots: Vec<Option<T>>,
    first: usize,
    capacity: usize,
}

/// The tokens of the taken slots of `s`, the first slot having token `first`.
pub open spec fn taken<T>(s: Seq<Option<T>>, first: int) -> Set<usize>
    decreases s.len(),
{
    if s.len() == 0 {
        Set::empty()
    } else {
        let r = taken(s.drop_last(), first);
        if s.last() is Some {
            r.insert((first + s.len() - 1) as usize)
        } else {
            r
        }
    }
}

proof fn lemma_taken<T>(s: Seq<Option<T>>, first: int)
    requires
        0 <= first,
        first + s.len() <= usize::MAX,
    ensures
        taken(s, first).finite(),
        taken(s, first).len() <= s.len(),
        taken(s, first).len() == s.len() <==> forall|i: int| 0 <= i < s.len() ==> s[i] is Some,
        forall|t: usize|
            taken(s, first).contains(t) <==> (first <= t < first + s.len() && s[t - first] is Some),
    decreases s.len(),
{
    if s.len() > 0 {
        let p = s.drop_last();
        lemma_taken(p, first);
        let r = taken(p, first);
        assert forall|t: usize|
            taken(s, first).contains(t) <==> (first <= t < first + s.len() && s[t - first] is Some) by {
            if first <= t < first + p.len() {
                assert(s[t - first] == p[t - first]);
            }
        }
        if s.last() is None {
            assert(!(forall|i: int| 0 <= i < s.len() ==> s[i] is Some));
        } else {
            assert(!r.contains((first + s.len() - 1) as usize));
            assert((forall|i: int| 0 <= i < s.len() ==> s[i] is Some) <==> (forall|i: int|
                0 <= i < p.len() ==> p[i] is Some)) by {
                if forall|i: int| 0 <= i < p.len() ==> p[i] is Some {
                    assert forall|i: int| 0 <= i < s.len() implies s[i] is Some by {
                        if i < p.len() {
                            assert(s[i] == p[i]);
                        }
                    }
                }
                if forall|i: int| 0 <= i < s.len() ==> s[i] is Some {
                    assert forall|i: int| 0 <= i < p.len() implies p[i] is Some by {
                        assert(s[i] == p[i]);
                    }
                }
            }
        }
    }
}

impl<T> View for Slab<T> {
    type V = Map<usize, T>;

    closed spec fn view(&self) -> Map<usize, T> {
        Map::new(
            |t: usize|
                self.first <= t < self.first + self.slots@.len() && self.slots@[t
                    - self.first] is Some,
            |t: usize| self.slots@[t - self.first]->Some_0,
        )
    }
}

impl<T> Slab<T> {
    pub closed spec fn wf(&self) -> bool {
        &&& self.slots@.len() <= self.capacity
        &&& self.first + self.capacity <= usize::MAX
    }

    /// The smallest token.
    pub closed spec fn first(&self) -> nat {
        self.first as nat
    }

    /// The most values the table holds.
    pub closed spec fn capacity(&self) -> nat {
        self.capacity as nat
    }

    /// The table never holds more than its capacity, and it is full exactly
    /// when it holds that many.
    pub proof fn lemma_size(&self)
        requires
            self.wf(),
        ensures
            self@.dom().finite(),
            self@.dom().len() <= self.capacity(),
            self.is_full() <==> self@.dom().len() == self.capacity(),
    {
        let f = self.first as int;
        lemma_taken(self.slots@, f);
        assert(self@.dom() =~= taken(self.slots@, f));
    }

    /// Every token in the table is at least `first`.
    pub proof fn lemma_first(&self, t: usize)
        requires
            self@.contains_key(t),
        ensures
            t >= self.first(),
    {
    }

    /// Every slot is taken: no value can be added.
    pub closed spec fn is_full(&self) -> bool {
        &&& self.slots@.len() == self.capacity
        &&& forall|i: int| 0 <= i < self.slots@.len() ==> self.slots@[i] is Some
    }

    /// Whether `t` names a slot that was taken out and may be filled again.
    pub closed spec fn vacated(&self, t: usize) -> bool {
        self.first <= t < self.first + self.slots@.len() && self.slots@[t - self.first] is None
    }

    /// An empty table for `capacity` values with tokens from `first`.
    pub fn new(first: usize, capacity: usize) -> (s: Slab<T>)
        requires
            first + capacity <= usize::MAX,
        ensures
            s.wf(),
            s@ == Map::<usize, T>::empty(),
            s.first() == first,
            s.capacity() == capacity,
            capacity > 0 ==> !s.is_full(),
    {
        let s = Slab { slots: Vec::new(), first, capacity };
        assert(s@ =~= Map::<usize, T>::empty());
        s
    }

    /// Stores `v` in the first free slot and returns its token, or hands
    /// nothing back when every slot is taken.
    pub fn insert(&mut self, v: T) -> (r: Option<usize>)
        requires
            old(self).wf(),
        ensures
            final(self).wf(),
            final(self).first() == old(self).first(),
            final(self).capacity() == old(self).capacity(),
            r.is_none() == old(self).is_full(),
            r.is_none() ==> final(self)@ == old(self)@,
            r matches Some(t) ==> t >= old(self).first() && !old(self)@.contains_key(t)
                && final(self)@ == old(self)@.insert(t, v),
    {
        let mut i: usize = 0;
        while i < self.slots.len()
            invariant
                self.wf(),
                self.first == old(self).first,
                self.capacity == old(self).capacity,
                self.slots@ == old(self).slots@,
                i <= self.slots@.len(),
                forall|j: int| 0 <= j < i ==> self.slots@[j] is Some,
            decreases self.slots@.len() - i,
        {
            if self.slots[i].is_none() {
                let ghost before = *self;
                self.slots.set(i, Some(v));
                assert(self@ =~= before@.insert((self.first + i) as usize, v));
                return Some(self.first + i);
            }
            i = i + 1;
        }
        if self.slots.len() < self.capacity {
            let ghost before = *self;
            self.slots.push(Some(v));
            assert(self@ =~= before@.insert((self.first + i) as usize, v));
            Some(self.first + i)
        } else {
            None
        }
    }

    /// Takes the value under `t` out, leaving its slot free.
    pub fn take(&mut self, t: usize) -> (r: Option<T>)
        requires
            old(self).wf(),
        ensures
            final(self).wf(),
            final(self).first() == old(self).first(),
            final(self).capacity() == old(self).capacity(),
            r.is_some() == old(self)@.contains_key(t),
            r matches Some(v) ==> v == old(self)@[t] && final(self).vacated(t),
            final(self)@ == old(self)@.remove(t),
    {
        if t < self.first || t - self.first >= self.slots.len() {
            assert(self@ =~= self@.remove(t));
            return None;
        }
        let i = t - self.first;
        let ghost before = *self;
        let mut out: Option<T> = None;
        std::mem::swap(&mut out, &mut self.slots[i]);
        assert(self@ =~= before@.remove(t));
        out
    }

    /// Puts a value back under a token whose slot was vacated.
    pub fn restore(&mut self, t: usize, v: T)
        requires
            old(self).wf(),
            old(self).vacated(t),
        ensures
            final(self).wf(),
            final(self).first() == old(self).first(),
            final(self).capacity() == old(self).capacity(),
            final(self)@ == old(self)@.insert(t, v),
    {
        let ghost before = *self;
        self.slots.set(t - self.first, Some(v));
        assert(self@ =~= before@.insert(t, v));
    }

    /// The value under `t`, if any.
    pub fn get(&self, t: usize) -> (r: Option<&T>)
        ensures
            r.is_some() == self@.contains_key(t),
            r matches Some(v) ==> *v == self@[t],
    {
        if t < self.first || t - self.first >= self.slots.len() {
            return None;
        }
        self.slots[t - self.first].as_ref()
    }
}

} // verus!
