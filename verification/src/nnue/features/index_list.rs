//! A short list of feature indices.

use vstd::prelude::*;

verus! {

/// Capacity of an index list.
pub const MAX_ACTIVE: usize = 64;

/// Up to 64 feature indices, in the order pushed.
pub struct IndexList {
    values: [u32; 64],
    size: usize,
}

impl View for IndexList {
    type V = Seq<u32>;

    closed spec fn view(&self) -> Seq<u32> {
        self.values@.subrange(0, self.size as int)
    }
}

impl IndexList {
    /// The list's bookkeeping is consistent.
    pub closed spec fn wf(&self) -> bool {
        self.size <= 64
    }

    pub fn new() -> (l: IndexList)
        ensures
            l.wf(),
            l@ == Seq::<u32>::empty(),
    {
        let l = IndexList { values: [0; 64], size: 0 };
        proof {
            assert(l@ =~= Seq::<u32>::empty());
        }
        l
    }

    /// Appends `index`; there must be room for it.
    pub fn push(&mut self, index: u32)
        requires
            old(self).wf(),
            old(self)@.len() < MAX_ACTIVE,
        ensures
            final(self).wf(),
            final(self)@ == old(self)@.push(index),
    {
        self.values[self.size] = index;
        self.size = self.size + 1;
        proof {
            assert(self@ =~= old(self)@.push(index));
        }
    }

    /// Appends `index` when it is below `limit`.
    pub fn push_if_lt(&mut self, index: u32, limit: u32)
        requires
            old(self).wf(),
            index < limit ==> old(self)@.len() < MAX_ACTIVE,
        ensures
            final(self).wf(),
            final(self)@ == (if index < limit {
                old(self)@.push(index)
            } else {
                old(self)@
            }),
    {
        if index < limit {
            self.push(index);
        }
    }

    pub fn len(&self) -> (n: usize)
        requires
            self.wf(),
        ensures
            n == self@.len(),
    {
        self.size
    }

    pub fn is_empty(&self) -> (r: bool)
        requires
            self.wf(),
        ensures
            r == (self@.len() == 0),
    {
        self.size == 0
    }

    pub fn clear(&mut self)
        ensures
            final(self).wf(),
            final(self)@ == Seq::<u32>::empty(),
    {
        self.size = 0;
        proof {
            assert(self@ =~= Seq::<u32>::empty());
        }
    }

    pub fn as_slice(&self) -> (s: &[u32])
        requires
            self.wf(),
        ensures
            s@ == self@,
    {
        &self.values.as_slice()[0..self.size]
    }
}

} // verus!
