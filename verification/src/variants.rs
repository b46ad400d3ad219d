//! A cursor over the dense indices of an enumerated type's variants, for
//! walking a fixed variant table without an iterator.

use vstd::prelude::*;

verus! {

/// A cursor that yields `0, 1, ..., count - 1` in order.
#[derive(Clone, Copy, PartialEq, Eq, Structural, Debug)]
pub struct Variants {
    pub index: u8,
    pub count: u8,
}

impl Variants {
    pub open spec fn wf(self) -> bool {
        self.index <= self.count
    }

    /// A cursor over `count` variants, at the first.
    pub fn new(count: u8) -> (r: Variants)
        ensures
            r.wf(),
            r.index == 0,
            r.count == count,
    {
        Variants { index: 0, count }
    }

    /// The next variant index, if one is left.
    pub fn next(&mut self) -> (r: Option<u8>)
        requires
            old(self).wf(),
        ensures
            final(self).wf(),
            final(self).count == old(self).count,
            r matches Some(i) ==> i == old(self).index && i < old(self).count && final(self).index
                == old(self).index + 1,
            r is None ==> old(self).index == old(self).count && *final(self) == *old(self),
    {
        if self.index < self.count {
            let i = self.index;
            self.index = self.index + 1;
            Some(i)
        } else {
            None
        }
    }
}

} // verus!
