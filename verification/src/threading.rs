//! The worker-pool building blocks: the bounded single-producer queue,
//! the shutdown switch, the shared-value wrapper and the adaptive parker.

use vstd::prelude::*;
use crate::traits::NewType;

verus! {

/// A bounded first-in-first-out queue of at most `size` items.
#[derive(Debug)]
pub struct SpSc<T> {
    pub buf: Vec<T>,
    pub size: usize,
}

impl<T> SpSc<T> {
    /// The queued items, oldest first.
    pub closed spec fn view(&self) -> Seq<T> {
        self.buf@
    }

    /// An empty queue holding at most `size` items.
    pub fn new(size: usize) -> (r: SpSc<T>)
        ensures
            r@ =~= Seq::<T>::empty(),
            r.size == size,
    {
        SpSc { buf: Vec::new(), size }
    }

    /// Whether the queue can take no more items.
    pub fn is_full(&self) -> (r: bool)
        ensures
            r == (self@.len() >= self.size),
    {
        self.buf.len() >= self.size
    }

    /// Whether the queue holds nothing.
    pub fn is_empty(&self) -> (r: bool)
        ensures
            r == (self@.len() == 0),
    {
        self.buf.len() == 0
    }

    /// Appends `val` at the back; a full queue refuses it.
    pub fn push(&mut self, val: T) -> (r: bool)
        ensures
            r == (old(self)@.len() < old(self).size),
            r ==> final(self)@ == old(self)@.push(val),
            !r ==> final(self)@ == old(self)@,
            final(self).size == old(self).size,
    {
        if self.buf.len() < self.size {
            self.buf.push(val);
            true
        } else {
            false
        }
    }

    /// Removes and returns the oldest item, if any.
    pub fn pop(&mut self) -> (r: Option<T>)
        ensures
            final(self).size == old(self).size,
            match r {
                Some(v) => old(self)@.len() > 0 && v == old(self)@[0] && final(self)@ == old(
                    self,
                )@.subrange(1, old(self)@.len() as int),
                None => old(self)@.len() == 0 && final(self)@ == old(self)@,
            },
    {
        if self.buf.len() == 0 {
            None
        } else {
            let v = self.buf.remove(0);
            Some(v)
        }
    }
}

/// A shutdown flag a thread polls to learn when to drain and exit.
#[derive(Debug)]
pub struct Switch(pub bool);

impl NewType for Switch {
    fn new() -> Self {
        Switch(false)
    }
}

impl Switch {
    /// The flag's state.
    pub closed spec fn state(&self) -> bool {
        self.0
    }

    pub fn set(&mut self, state: bool)
        ensures
            final(self).state() == state,
    {
        self.0 = state;
    }

    pub fn get(&self) -> (r: bool)
        ensures
            r == self.state(),
    {
        self.0
    }
}

/// A wrapper carrying a value shared with worker threads.
#[derive(Debug)]
pub struct TVal<T>(pub T);

impl<T> TVal<T> {
    /// Wraps `val`.
    pub fn new(val: T) -> (r: TVal<T>)
        ensures
            r.0 == val,
    {
        TVal(val)
    }

    /// A borrow of the wrapped value.
    pub fn get(&self) -> (r: &T)
        ensures
            *r == self.0,
    {
        &self.0
    }
}

/// Adaptive back-off: progress resets the pause to the minimum, lack of
/// progress lengthens it by one segment up to the maximum.
#[derive(Debug, Clone)]
pub struct Parker {
    pub min_time: u64,
    pub max_time: u64,
    pub segment: u64,
    pub cur_time: u64,
}

impl Parker {
    pub fn new(min_time: u64, max_time: u64, segment: u64) -> (r: Parker)
        ensures
            r.min_time == min_time,
            r.max_time == max_time,
            r.segment == segment,
            r.cur_time == min_time,
    {
        Parker { min_time, max_time, segment, cur_time: min_time }
    }

    /// Adjusts the pause after an attempt and returns how many
    /// milliseconds to park: back to the minimum on progress, one segment
    /// longer (capped at the maximum) otherwise.
    pub fn do_park(&mut self, result: bool) -> (pause: u64)
        ensures
            final(self).min_time == old(self).min_time,
            final(self).max_time == old(self).max_time,
            final(self).segment == old(self).segment,
            result ==> final(self).cur_time == old(self).min_time,
            !result ==> final(self).cur_time == if old(self).cur_time >= old(self).max_time {
                old(self).max_time
            } else if old(self).max_time - old(self).cur_time >= old(self).segment {
                (old(self).cur_time + old(self).segment) as u64
            } else {
                old(self).max_time
            },
            pause == final(self).cur_time,
    {
        if result {
            self.cur_time = self.min_time;
        } else if self.cur_time >= self.max_time {
            self.cur_time = self.max_time;
        } else if self.max_time - self.cur_time >= self.segment {
            self.cur_time = self.cur_time + self.segment;
        } else {
            self.cur_time = self.max_time;
        }
        self.cur_time
    }
}

} // verus!
