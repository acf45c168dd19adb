//! A fixed ring of values walked round-robin.

use vstd::prelude::*;

verus! {

/// One cell of a ring.
#[derive(Debug)]
pub struct CircleNode<T>(pub T);

impl<T: Clone> CircleNode<T> {
    /// A cell holding a clone of `val`.
    pub fn new_ptr(val: &T) -> (r: CircleNode<T>)
        ensures
            vstd::pervasive::cloned(*val, r.0),
    {
        CircleNode(val.clone())
    }

    /// A ring of `count` cells, each holding a clone of `val`.
    pub fn make_ring(val: &T, count: usize) -> (r: Vec<CircleNode<T>>)
        requires
            count >= 2,
        ensures
            r@.len() == count,
            forall|i: int| 0 <= i < count ==> vstd::pervasive::cloned(*val, (#[trigger] r@[i]).0),
    {
        let mut cells: Vec<CircleNode<T>> = Vec::new();
        let mut i: usize = 0;
        while i < count
            invariant
                i <= count,
                cells@.len() == i,
                forall|j: int|
                    0 <= j < i ==> vstd::pervasive::cloned(*val, (#[trigger] cells@[j]).0),
            decreases count - i,
        {
            cells.push(CircleNode(val.clone()));
            i += 1;
        }
        cells
    }

    /// A mutable borrow of the held value.
    pub fn get_mut(&mut self) -> (r: &mut T)
        ensures
            *r == old(self).0,
            *final(self) == CircleNode(*final(r)),
    {
        &mut self.0
    }
}

/// A ring of values with a cursor that advances on every visit.
#[derive(Debug)]
pub struct CircleList<T> {
    pub ring: Vec<CircleNode<T>>,
    pub cursor: usize,
}

impl<T: Clone> CircleList<T> {
    /// The ring's values, in cell order.
    pub closed spec fn view(&self) -> Seq<CircleNode<T>> {
        self.ring@
    }

    /// Where the next visit lands.
    pub closed spec fn at(&self) -> int {
        self.cursor as int
    }

    /// The cursor always points at a cell.
    pub closed spec fn wf(&self) -> bool {
        self.ring@.len() > 0 && (self.cursor as int) < self.ring@.len()
    }

    /// A ring of `size` cells cloned from `val`.
    pub fn new(val: &T, size: usize) -> (r: CircleList<T>)
        requires
            size >= 2,
        ensures
            r.wf(),
            r@.len() == size,
            r.at() == 0,
            forall|i: int| 0 <= i < size ==> vstd::pervasive::cloned(*val, (#[trigger] r@[i]).0),
    {
        CircleList { ring: CircleNode::make_ring(val, size), cursor: 0 }
    }

    /// Visits the cell under the cursor and advances the cursor one step
    /// around the ring.
    pub fn next(&mut self) -> (r: &T)
        requires
            old(self).wf(),
        ensures
            final(self).wf(),
            final(self)@ == old(self)@,
            *r == old(self)@[old(self).at()].0,
            final(self).at() == if old(self).at() + 1 == old(self)@.len() {
                0int
            } else {
                old(self).at() + 1
            },
    {
        let i = self.cursor;
        proof {
            vstd::std_specs::vec::axiom_spec_len(&self.ring);
        }
        if self.cursor + 1 == self.ring.len() {
            self.cursor = 0;
        } else {
            self.cursor = self.cursor + 1;
        }
        &self.ring[i].0
    }

    /// How many cells the ring has.
    pub fn len(&self) -> (r: usize)
        ensures
            r == self@.len(),
    {
        self.ring.len()
    }
}

} // verus!
