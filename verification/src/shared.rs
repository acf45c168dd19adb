//! The shared slot: a cell holding the current time-stamped value, a
//! per-thread registry of observed times, and per-thread free lists of
//! retired values awaiting epoch clearance.

use vstd::prelude::*;
use crate::traits::NewType;

verus! {

/// A payload bundled with the monotonic-clock reading at its write.
#[derive(Debug)]
pub struct TimePtr<T>(pub T, pub u64);

impl<T> TimePtr<T> {
    /// Stamps `val` with the clock reading `now`.
    pub fn make(val: T, now: u64) -> (r: TimePtr<T>)
        ensures
            r.0 == val,
            r.1 == now,
    {
        TimePtr(val, now)
    }

    /// The timestamp of an optional value.
    pub fn get_time(ptr: &Option<TimePtr<T>>) -> (r: Option<u64>)
        ensures
            match ptr {
                Some(tp) => r == Some(tp.1),
                None => r is None,
            },
    {
        match ptr {
            Some(tp) => Some(tp.1),
            None => None,
        }
    }
}

/// One cell of a free list: empty, or a retired time-stamped value.
#[derive(Debug)]
pub struct FreeNode<T>(pub Option<TimePtr<T>>);

impl<T> FreeNode<T> {
    /// An empty cell.
    pub fn new() -> (r: FreeNode<T>)
        ensures
            r.0 is None,
    {
        FreeNode(None)
    }

    /// A cell holding `ptr`.
    pub fn new_ptr(ptr: TimePtr<T>) -> (r: FreeNode<T>)
        ensures
            r.0 == Some(ptr),
    {
        FreeNode(Some(ptr))
    }
}

/// How many cells of `s` are occupied.
pub open spec fn somes_count<T>(s: Seq<Option<TimePtr<T>>>) -> nat
    decreases s.len(),
{
    if s.len() == 0 {
        0
    } else {
        (if s[0] is Some {
            1nat
        } else {
            0nat
        }) + somes_count(s.subrange(1, s.len() as int))
    }
}

/// The index of the first empty cell of `s`, or `s.len()` when none is.
pub open spec fn first_none<T>(s: Seq<Option<TimePtr<T>>>) -> int
    decreases s.len(),
{
    if s.len() == 0 {
        0
    } else if s[0] is None {
        0
    } else {
        1 + first_none(s.subrange(1, s.len() as int))
    }
}

/// What `first_none` promises: everything before it is occupied, and it
/// points at an empty cell unless it is the length.
pub proof fn lemma_first_none<T>(s: Seq<Option<TimePtr<T>>>)
    ensures
        0 <= first_none(s) <= s.len(),
        forall|j: int| 0 <= j < first_none(s) ==> s[j] is Some,
        first_none(s) < s.len() ==> s[first_none(s)] is None,
    decreases s.len(),
{
    if s.len() > 0 && !(s[0] is None) {
        let rest = s.subrange(1, s.len() as int);
        lemma_first_none(rest);
        assert(forall|j: int| 0 <= j < rest.len() ==> rest[j] == s[j + 1]);
        assert forall|j: int| 0 <= j < first_none(s) implies s[j] is Some by {
            if j > 0 {
                assert(rest[j - 1] is Some);
            }
        }
    }
}

/// A free list appended to: the first empty cell is filled, or a new
/// cell is grown at the end.
pub open spec fn fl_add<T>(s: Seq<Option<TimePtr<T>>>, p: TimePtr<T>) -> Seq<Option<TimePtr<T>>> {
    if first_none(s) < s.len() {
        s.update(first_none(s), Some(p))
    } else {
        s.push(Some(p))
    }
}

/// A per-thread, append-only list of retired values awaiting clearance.
#[derive(Debug)]
pub struct FreeList<T> {
    nodes: Vec<FreeNode<T>>,
}

impl<T> FreeList<T> {
    /// The cells of this list.
    pub closed spec fn view(&self) -> Seq<Option<TimePtr<T>>> {
        self.nodes@.map(|i: int, n: FreeNode<T>| n.0)
    }

    /// A fresh list: one empty cell, nothing retired.
    pub fn new() -> (r: FreeList<T>)
        ensures
            r@ =~= seq![Option::<TimePtr<T>>::None],
    {
        let mut nodes: Vec<FreeNode<T>> = Vec::new();
        nodes.push(FreeNode::new());
        let r = FreeList { nodes };
        proof {
            assert(r@.len() == 1);
            assert(r@[0] is None);
            assert(r@ =~= seq![Option::<TimePtr<T>>::None]);
        }
        r
    }

    /// How many values are waiting on this list.
    pub fn count(&self) -> (r: usize)
        ensures
            r == somes_count(self@),
    {
        let mut c: usize = 0;
        let mut i: usize = 0;
        let len = self.nodes.len();
        proof {
            assert(self@.subrange(0, 0) =~= Seq::<Option<TimePtr<T>>>::empty());
        }
        while i < len
            invariant
                i <= len,
                len == self.nodes@.len(),
                c == somes_count(self@.subrange(0, i as int)),
                c <= i,
            decreases len - i,
        {
            proof {
                lemma_somes_count_snoc(self@, i as int);
            }
            let occupied = self.nodes[i].0.is_some();
            if occupied {
                c += 1;
            }
            i += 1;
        }
        proof {
            assert(self@.subrange(0, len as int) =~= self@);
        }
        c
    }

    /// Retires `ptr` onto the list: the first empty cell takes it, or the
    /// list grows by one cell.
    pub fn add(&mut self, ptr: TimePtr<T>)
        ensures
            final(self)@ == fl_add(old(self)@, ptr),
            somes_count(final(self)@) == somes_count(old(self)@) + 1,
    {
        proof {
            lemma_first_none(old(self)@);
        }
        let mut i: usize = 0;
        let len = self.nodes.len();
        while i < len
            invariant
                len == self.nodes@.len(),
                i <= len,
                *self == *old(self),
                forall|j: int| 0 <= j < i ==> self@[j] is Some,
            decreases len - i,
        {
            let is_empty = self.nodes[i].0.is_none();
            if is_empty {
                proof {
                    assert(self@[i as int] is None);
                    assert(first_none(self@) == i) by {
                        lemma_first_none(self@);
                        if first_none(self@) < i {
                            assert(self@[first_none(self@)] is Some);
                        }
                        if first_none(self@) > i {
                            assert(self@[i as int] is Some);
                        }
                    }
                }
                self.nodes[i] = FreeNode(Some(ptr));
                proof {
                    assert(self@ =~= fl_add(old(self)@, ptr));
                    lemma_somes_count_update(old(self)@, i as int, ptr);
                }
                return ;
            }
            i += 1;
        }
        proof {
            assert(first_none(self@) == len) by {
                lemma_first_none(self@);
                if first_none(self@) < len {
                    assert(self@[first_none(self@)] is Some);
                }
            }
        }
        self.nodes.push(FreeNode(Some(ptr)));
        proof {
            assert(self@ =~= old(self)@.push(Some(ptr)));
            lemma_somes_count_push(old(self)@, ptr);
        }
    }
}

impl<T> FreeList<T> {
    /// How many cells the list has, occupied or not.
    pub fn len(&self) -> (r: usize)
        ensures
            r == self@.len(),
    {
        self.nodes.len()
    }

    /// The timestamp in cell `i`, if it is occupied.
    pub fn time_at(&self, i: usize) -> (r: Option<u64>)
        requires
            i < self@.len(),
        ensures
            match self@[i as int] {
                Some(tp) => r == Some(tp.1),
                None => r is None,
            },
    {
        match &self.nodes[i].0 {
            Some(tp) => Some(tp.1),
            None => None,
        }
    }

    /// Empties cell `i`, dropping the value it held.
    pub fn clear_at(&mut self, i: usize)
        requires
            i < old(self)@.len(),
        ensures
            final(self)@ == old(self)@.update(i as int, None),
    {
        self.nodes[i] = FreeNode(None);
        proof {
            assert(self@ =~= old(self)@.update(i as int, None));
        }
    }
}

/// Extending a prefix by one cell adds that cell's occupancy.
proof fn lemma_somes_count_snoc<T>(s: Seq<Option<TimePtr<T>>>, i: int)
    requires
        0 <= i < s.len(),
    ensures
        somes_count(s.subrange(0, i + 1)) == somes_count(s.subrange(0, i)) + (if s[i] is Some {
            1int
        } else {
            0int
        }),
    decreases i,
{
    let a = s.subrange(0, i);
    let b = s.subrange(0, i + 1);
    if i == 0 {
        assert(b.subrange(1, 1) =~= Seq::<Option<TimePtr<T>>>::empty());
        assert(a =~= Seq::<Option<TimePtr<T>>>::empty());
    } else {
        let t = s.subrange(1, s.len() as int);
        assert(a.subrange(1, a.len() as int) =~= t.subrange(0, i - 1));
        assert(b.subrange(1, b.len() as int) =~= t.subrange(0, i));
        assert(a[0] == s[0] && b[0] == s[0]);
        lemma_somes_count_snoc(t, i - 1);
        assert(t[i - 1] == s[i]);
    }
}

/// Filling an empty cell raises the occupied count by one.
proof fn lemma_somes_count_update<T>(s: Seq<Option<TimePtr<T>>>, i: int, p: TimePtr<T>)
    requires
        0 <= i < s.len(),
        s[i] is None,
    ensures
        somes_count(s.update(i, Some(p))) == somes_count(s) + 1,
    decreases s.len(),
{
    let s2 = s.update(i, Some(p));
    if i == 0 {
        assert(s2.subrange(1, s2.len() as int) =~= s.subrange(1, s.len() as int));
    } else {
        assert(s2[0] == s[0]);
        assert(s2.subrange(1, s2.len() as int) =~= s.subrange(1, s.len() as int).update(
            i - 1,
            Some(p),
        ));
        lemma_somes_count_update(s.subrange(1, s.len() as int), i - 1, p);
    }
}

/// Growing the list by an occupied cell raises the count by one.
proof fn lemma_somes_count_push<T>(s: Seq<Option<TimePtr<T>>>, p: TimePtr<T>)
    ensures
        somes_count(s.push(Some(p))) == somes_count(s) + 1,
    decreases s.len(),
{
    let s2 = s.push(Some(p));
    assert(s2[0] == (if s.len() == 0 { Some(p) } else { s[0] }));
    if s.len() == 0 {
        assert(s2.subrange(1, 1) =~= Seq::<Option<TimePtr<T>>>::empty());
        assert(somes_count(Seq::<Option<TimePtr<T>>>::empty()) == 0);
        assert(somes_count(s2) == 1);
    } else {
        assert(s2[0] == s[0]);
        assert(s2.subrange(1, s2.len() as int) =~= s.subrange(1, s.len() as int).push(Some(p)));
        lemma_somes_count_push(s.subrange(1, s.len() as int), p);
    }
}

/// One thread's slice of a shared slot: its last-observed time and its
/// free list of retired values.
#[derive(Debug)]
pub struct ThreadStorage<T> {
    pub cur_time: u64,
    pub free_list: FreeList<T>,
}

impl<T> NewType for ThreadStorage<T> {
    fn new() -> Self {
        ThreadStorage { cur_time: 0, free_list: FreeList::new() }
    }
}

/// The unit of per-leaf concurrency: the current time-stamped value plus
/// the per-thread registry of observed times and free lists.  Thread ids
/// index the registry; a thread's entry appears the first time it writes
/// to or sweeps the slot.
#[derive(Debug)]
pub struct Shared<T> {
    pub time_keeps: Vec<Option<ThreadStorage<T>>>,
    pub cur: Option<TimePtr<T>>,
}

impl<T> NewType for Shared<T> {
    fn new() -> Self {
        Shared { time_keeps: Vec::new(), cur: None }
    }
}

/// How `write` changes a slot: `post` is `pre` with `ptr` installed and,
/// when a value was displaced, with `tid`'s observed time advanced to the
/// displaced value's timestamp and that value retired onto `tid`'s free
/// list.
pub open spec fn write_post<T>(pre: Shared<T>, post: Shared<T>, ptr: TimePtr<T>, tid: int) -> bool {
    &&& post.current() == Some(ptr)
    &&& (pre.current() is None ==> post.keeps() == pre.keeps())
    &&& (pre.current() is Some ==> {
        let tp = pre.current()->Some_0;
        let st = post.keeps()[tid]->Some_0;
        &&& post.keeps().len() == if tid < pre.keeps().len() {
            pre.keeps().len() as int
        } else {
            tid + 1
        }
        &&& forall|j: int|
            0 <= j < post.keeps().len() && j != tid ==> (#[trigger] post.keeps()[j]) == (if j
                < pre.keeps().len() {
                pre.keeps()[j]
            } else {
                None
            })
        &&& post.keeps()[tid] is Some
        &&& st.cur_time == tp.1
        &&& st.free_list@ == fl_add(
            (if tid < pre.keeps().len() && pre.keeps()[tid] is Some {
                pre.keeps()[tid]->Some_0.free_list@
            } else {
                seq![Option::<TimePtr<T>>::None]
            }),
            tp,
        )
    })
}

impl<T> Shared<T> {
    /// The value currently installed, with its timestamp.
    pub open spec fn current(self) -> Option<TimePtr<T>> {
        self.cur
    }

    /// A fresh slot: no value installed, no thread registered.
    pub fn new() -> (r: Shared<T>)
        ensures
            r.current() is None,
            r.keeps().len() == 0,
    {
        Shared { time_keeps: Vec::new(), cur: None }
    }

    /// The per-thread registry: observed times and free lists by thread
    /// id.
    pub open spec fn keeps(self) -> Seq<Option<ThreadStorage<T>>> {
        self.time_keeps@
    }

    /// Every registered thread's observed time lies strictly past `t`.
    pub open spec fn all_past(self, t: u64) -> bool {
        forall|j: int|
            0 <= j < self.keeps().len() && self.keeps()[j] is Some
                ==> (#[trigger] self.keeps()[j])->Some_0.cur_time > t
    }

    /// A fresh slot already holding `val` stamped `now`.
    pub fn new_val(val: T, now: u64) -> (r: Shared<T>)
        ensures
            r.current() == Some(TimePtr(val, now)),
            r.keeps().len() == 0,
    {
        Shared { time_keeps: Vec::new(), cur: Some(TimePtr(val, now)) }
    }

    /// A borrow of the current time-stamped value.
    pub fn current_ref(&self) -> (r: Option<&TimePtr<T>>)
        ensures
            match r {
                Some(p) => self.current() == Some(*p),
                None => self.current() is None,
            },
    {
        match &self.cur {
            Some(tp) => Some(tp),
            None => None,
        }
    }

    /// True when every registered thread's observed time is strictly
    /// past `ctime`, so a value stamped `ctime` is safe to free.
    pub fn time_check(&self, ctime: u64) -> (r: bool)
        ensures
            r == self.all_past(ctime),
    {
        let mut j: usize = 0;
        let len = self.time_keeps.len();
        while j < len
            invariant
                j <= len,
                len == self.keeps().len(),
                forall|i: int|
                    0 <= i < j && self.keeps()[i] is Some ==> (#[trigger] self.keeps()[
                    i])->Some_0.cur_time > ctime,
            decreases len - j,
        {
            match &self.time_keeps[j] {
                Some(stor) => {
                    if stor.cur_time <= ctime {
                        return false;
                    }
                },
                None => (),
            }
            j += 1;
        }
        true
    }

    /// Grows the registry so that `tid` has an entry, creating it (and
    /// empty interim entries) as needed.
    fn ensure_tid(&mut self, tid: usize)
        requires
            tid < usize::MAX,
        ensures
            final(self).current() == old(self).current(),
            final(self).keeps().len() == if tid < old(self).keeps().len() {
                old(self).keeps().len() as int
            } else {
                tid + 1
            },
            forall|j: int|
                0 <= j < old(self).keeps().len() && j != tid ==> #[trigger] final(self).keeps()[j]
                    == old(self).keeps()[j],
            forall|j: int|
                old(self).keeps().len() <= j < final(self).keeps().len() && j != tid ==> (
                #[trigger] final(self).keeps()[j]) is None,
            final(self).keeps()[tid as int] is Some,
            ({
                let st = final(self).keeps()[tid as int]->Some_0;
                if tid < old(self).keeps().len() && old(self).keeps()[tid as int] is Some {
                    st == old(self).keeps()[tid as int]->Some_0
                } else {
                    st.cur_time == 0 && st.free_list@ =~= seq![Option::<TimePtr<T>>::None]
                }
            }),
    {
        while self.time_keeps.len() <= tid
            invariant
                tid < usize::MAX,
                self.cur == old(self).cur,
                forall|j: int|
                    0 <= j < old(self).keeps().len() ==> #[trigger] self.keeps()[j] == old(
                        self,
                    ).keeps()[j],
                self.keeps().len() >= old(self).keeps().len(),
                old(self).keeps().len() <= tid ==> self.keeps().len() <= tid + 1,
                old(self).keeps().len() > tid ==> self.keeps().len() == old(self).keeps().len(),
                forall|j: int|
                    old(self).keeps().len() <= j < self.keeps().len() ==> (#[trigger] self.keeps()[j]) is None,
            decreases tid + 1 - self.time_keeps.len(),
        {
            self.time_keeps.push(None);
        }
        let need_init = self.time_keeps[tid].is_none();
        if need_init {
            let fresh = ThreadStorage { cur_time: 0, free_list: FreeList::new() };
            self.time_keeps[tid] = Some(fresh);
        }
    }

    /// Installs `ptr` as the current value.  The displaced value, if any,
    /// becomes the newest entry on `tid`'s free list, and `tid`'s
    /// observed time advances to the displaced value's timestamp.
    pub fn write(&mut self, ptr: TimePtr<T>, tid: usize)
        requires
            tid < usize::MAX,
        ensures
            write_post(*old(self), *final(self), ptr, tid as int),
            final(self).current() == Some(ptr),
            old(self).current() is None ==> final(self).keeps() == old(self).keeps(),
            old(self).current() is Some ==> {
                let tp = old(self).current()->Some_0;
                let st = final(self).keeps()[tid as int]->Some_0;
                &&& final(self).keeps().len() == if tid < old(self).keeps().len() {
                    old(self).keeps().len() as int
                } else {
                    tid + 1
                }
                &&& forall|j: int|
                    0 <= j < final(self).keeps().len() && j != tid ==> (#[trigger] final(
                    self
                    ).keeps()[j]) == (if j < old(self).keeps().len() {
                        old(self).keeps()[j]
                    } else {
                        None
                    })
                &&& final(self).keeps()[tid as int] is Some
                &&& st.cur_time == tp.1
                &&& st.free_list@ == fl_add(
                    (if tid < old(self).keeps().len() && old(self).keeps()[tid as int] is Some {
                        old(self).keeps()[tid as int]->Some_0.free_list@
                    } else {
                        seq![Option::<TimePtr<T>>::None]
                    }),
                    tp,
                )
            },
    {
        let mut displaced = Some(ptr);
        core::mem::swap(&mut self.cur, &mut displaced);
        match displaced {
            Some(tp) => {
                self.ensure_tid(tid);
                match &mut self.time_keeps[tid] {
                    Some(stor) => {
                        stor.cur_time = tp.1;
                        stor.free_list.add(tp);
                    },
                    None => {
                        unreached::<()>()
                    },
                }
            },
            None => (),
        }
    }

    /// Publishes the current value's timestamp as `tid`'s observed time;
    /// reports whether there was a value to observe.
    pub fn update_time(&mut self, tid: usize) -> (r: bool)
        requires
            tid < usize::MAX,
        ensures
            final(self).current() == old(self).current(),
            r == (old(self).current() is Some),
            old(self).current() is None ==> final(self).keeps() == old(self).keeps(),
            old(self).current() is Some ==> {
                let st = final(self).keeps()[tid as int]->Some_0;
                &&& final(self).keeps().len() == if tid < old(self).keeps().len() {
                    old(self).keeps().len() as int
                } else {
                    tid + 1
                }
                &&& forall|j: int|
                    0 <= j < final(self).keeps().len() && j != tid ==> (#[trigger] final(
                    self
                    ).keeps()[j]) == (if j < old(self).keeps().len() {
                        old(self).keeps()[j]
                    } else {
                        None
                    })
                &&& final(self).keeps()[tid as int] is Some
                &&& st.cur_time == old(self).current()->Some_0.1
                &&& st.free_list@ == (
                if tid < old(self).keeps().len() && old(self).keeps()[tid as int] is Some {
                    old(self).keeps()[tid as int]->Some_0.free_list@
                } else {
                    seq![Option::<TimePtr<T>>::None]
                })
            },
    {
        let has = self.cur.is_some();
        if has {
            let t = match &self.cur {
                Some(tp) => tp.1,
                None => 0,
            };
            self.ensure_tid(tid);
            match &mut self.time_keeps[tid] {
                Some(stor) => {
                    stor.cur_time = t;
                },
                None => {
                    unreached::<()>()
                },
            }
            true
        } else {
            false
        }
    }
}

/// Every registered thread's observed time lies strictly past `t`, as
/// the sweep of `tid`'s list sees it before the sweep runs: other
/// threads by their stored times, the sweeping thread by its own time
/// (or 0 when it has no entry yet).
pub open spec fn all_past_for<T>(sh: Shared<T>, tid: int, t: u64) -> bool {
    &&& forall|j: int|
        0 <= j < sh.keeps().len() && j != tid && sh.keeps()[j] is Some ==> (#[trigger] sh.keeps()[
        j])->Some_0.cur_time > t
    &&& sh.keep_time(tid) > t
}

/// A free list after one sweep, judged against the pre-sweep state `sh`
/// for the sweeping thread `tid`.
pub open spec fn fl_swept_for<T>(
    fl: Seq<Option<TimePtr<T>>>,
    sh: Shared<T>,
    tid: int,
) -> Seq<Option<TimePtr<T>>> {
    Seq::new(
        fl.len(),
        |i: int|
            match fl[i] {
                Some(tp) => if all_past_for(sh, tid, tp.1) {
                    None
                } else {
                    Some(tp)
                },
                None => None,
            },
    )
}

/// A free list after `free_run`, judged against the pre-sweep state:
/// swept when it holds at least `lim` values, untouched otherwise.
pub open spec fn fl_after_run_for<T>(
    fl: Seq<Option<TimePtr<T>>>,
    sh: Shared<T>,
    tid: int,
    lim: u32,
) -> Seq<Option<TimePtr<T>>> {
    if somes_count(fl) < lim {
        fl
    } else {
        fl_swept_for(fl, sh, tid)
    }
}

/// A free list after one sweep of `sh`'s registry: every occupied cell
/// whose timestamp every registered thread has moved past is emptied.
pub open spec fn fl_swept<T>(fl: Seq<Option<TimePtr<T>>>, sh: Shared<T>) -> Seq<
    Option<TimePtr<T>>,
> {
    Seq::new(
        fl.len(),
        |i: int|
            match fl[i] {
                Some(tp) => if sh.all_past(tp.1) {
                    None
                } else {
                    Some(tp)
                },
                None => None,
            },
    )
}

/// A free list after `free_run`: swept when it holds at least `lim`
/// values, untouched otherwise.
pub open spec fn fl_after_run<T>(fl: Seq<Option<TimePtr<T>>>, sh: Shared<T>, lim: u32) -> Seq<
    Option<TimePtr<T>>,
> {
    if somes_count(fl) < lim {
        fl
    } else {
        fl_swept(fl, sh)
    }
}

impl<T> Shared<T> {
    /// `tid`'s free list, as the sweep sees it: the stored one, or a
    /// fresh single-cell list when the thread has no entry yet.
    pub open spec fn keep_fl(self, tid: int) -> Seq<Option<TimePtr<T>>> {
        if 0 <= tid < self.keeps().len() && self.keeps()[tid] is Some {
            self.keeps()[tid]->Some_0.free_list@
        } else {
            seq![Option::<TimePtr<T>>::None]
        }
    }

    /// `tid`'s observed time: the stored one, or 0 when the thread has no
    /// entry yet.
    pub open spec fn keep_time(self, tid: int) -> u64 {
        if 0 <= tid < self.keeps().len() && self.keeps()[tid] is Some {
            self.keeps()[tid]->Some_0.cur_time
        } else {
            0
        }
    }

    /// Sweeps `tid`'s free list.  When the list holds at least `free_lim`
    /// retired values, every value whose timestamp every registered
    /// thread (the sweeper included) has strictly moved past is freed;
    /// every other value is kept in place.  Returns how many were freed.
    pub fn free_run(&mut self, tid: usize, free_lim: u32) -> (freed: usize)
        requires
            tid < usize::MAX,
        ensures
            final(self).current() == old(self).current(),
            final(self).keeps().len() == if tid < old(self).keeps().len() {
                old(self).keeps().len() as int
            } else {
                tid + 1
            },
            forall|j: int|
                0 <= j < final(self).keeps().len() && j != tid ==> (#[trigger] final(
                self
                ).keeps()[j]) == (if j < old(self).keeps().len() {
                    old(self).keeps()[j]
                } else {
                    None
                }),
            final(self).keeps()[tid as int] is Some,
            final(self).keep_time(tid as int) == old(self).keep_time(tid as int),
            final(self).keep_fl(tid as int) == fl_after_run(
                old(self).keep_fl(tid as int),
                *final(self),
                free_lim,
            ),
            final(self).keep_fl(tid as int) == fl_after_run_for(
                old(self).keep_fl(tid as int),
                *old(self),
                tid as int,
                free_lim,
            ),
            freed == somes_count(old(self).keep_fl(tid as int)) - somes_count(
                final(self).keep_fl(tid as int),
            ),
    {
        self.ensure_tid(tid);
        let ghost grown0 = *self;
        let ghost fl0 = self.keep_fl(tid as int);
        proof {
            assert(fl0 == old(self).keep_fl(tid as int));
        }
        let c = match &self.time_keeps[tid] {
            Some(st) => st.free_list.count(),
            None => unreached(),
        };
        if c < free_lim as usize {
            return 0;
        }
        let list_len = match &self.time_keeps[tid] {
            Some(st) => st.free_list.len(),
            None => unreached(),
        };
        // first pass: decide which cells have cleared every thread's
        // observed time
        let mut flags: Vec<bool> = Vec::new();
        let mut i: usize = 0;
        while i < list_len
            invariant
                i <= list_len,
                flags@.len() == i,
                *self == grown0,
                tid < self.keeps().len(),
                self.keeps()[tid as int] is Some,
                list_len == self.keep_fl(tid as int).len(),
                fl0 == self.keep_fl(tid as int),
                forall|j: int|
                    0 <= j < i ==> #[trigger] flags@[j] == match fl0[j] {
                        Some(tp) => self.all_past(tp.1),
                        None => false,
                    },
            decreases list_len - i,
        {
            let t_opt = match &self.time_keeps[tid] {
                Some(st) => st.free_list.time_at(i),
                None => unreached(),
            };
            let f = match t_opt {
                Some(t) => self.time_check(t),
                None => false,
            };
            flags.push(f);
            i += 1;
        }
        let ghost grown = *self;
        // second pass: empty the cleared cells
        let mut freed: usize = 0;
        let mut k: usize = 0;
        while k < list_len
            invariant
                k <= list_len,
                flags@.len() == list_len,
                self.cur == grown.cur,
                tid < self.keeps().len(),
                self.keeps().len() == grown.keeps().len(),
                forall|j: int|
                    0 <= j < self.keeps().len() && j != tid ==> #[trigger] self.keeps()[j]
                        == grown.keeps()[j],
                self.keeps()[tid as int] is Some,
                self.keep_time(tid as int) == grown.keep_time(tid as int),
                list_len == self.keep_fl(tid as int).len(),
                fl0.len() == list_len,
                forall|j: int|
                    0 <= j < list_len ==> #[trigger] flags@[j] == match fl0[j] {
                        Some(tp) => grown.all_past(tp.1),
                        None => false,
                    },
                forall|j: int|
                    0 <= j < k ==> #[trigger] self.keep_fl(tid as int)[j] == (if flags@[j] {
                        None
                    } else {
                        fl0[j]
                    }),
                forall|j: int|
                    k <= j < list_len ==> #[trigger] self.keep_fl(tid as int)[j] == fl0[j],
                freed as int == somes_count(fl0.subrange(0, k as int)) - somes_count(
                    self.keep_fl(tid as int).subrange(0, k as int),
                ),
                freed <= k,
            decreases list_len - k,
        {
            proof {
                lemma_somes_count_snoc(fl0, k as int);
            }
            let ghost before = self.keep_fl(tid as int);
            let do_free = flags[k];
            if do_free {
                match &mut self.time_keeps[tid] {
                    Some(st) => {
                        st.free_list.clear_at(k);
                    },
                    None => {
                        unreached::<()>()
                    },
                }
                freed = freed + 1;
                proof {
                    assert(self.keep_fl(tid as int) == before.update(k as int, None));
                    assert(fl0[k as int] is Some);
                    assert(self.keep_fl(tid as int).subrange(0, k as int) =~= before.subrange(
                        0,
                        k as int,
                    ));
                    assert(before.subrange(0, k as int) =~= before.map(
                        |i: int, x: Option<TimePtr<T>>| x,
                    ).subrange(0, k as int));
                    lemma_somes_count_snoc(self.keep_fl(tid as int), k as int);
                    assert(forall|j: int|
                        k < j < list_len ==> #[trigger] self.keep_fl(tid as int)[j] == fl0[j]);
                }
            } else {
                proof {
                    lemma_somes_count_snoc(self.keep_fl(tid as int), k as int);
                }
            }
            k += 1;
        }
        proof {
            assert(fl0.subrange(0, list_len as int) =~= fl0);
            assert(self.keep_fl(tid as int).subrange(0, list_len as int) =~= self.keep_fl(
                tid as int,
            ));
            assert forall|t: u64| #[trigger] grown.all_past(t) == self.all_past(t) by {
                if grown.all_past(t) {
                    assert forall|j: int|
                        0 <= j < self.keeps().len() && self.keeps()[j] is Some implies (
                    #[trigger] self.keeps()[j])->Some_0.cur_time > t by {
                        if j == tid {
                            assert(self.keep_time(tid as int) == grown.keep_time(tid as int));
                        } else {
                            assert(self.keeps()[j] == grown.keeps()[j]);
                        }
                    }
                }
                if self.all_past(t) {
                    assert forall|j: int|
                        0 <= j < grown.keeps().len() && grown.keeps()[j] is Some implies (
                    #[trigger] grown.keeps()[j])->Some_0.cur_time > t by {
                        if j == tid {
                            assert(self.keep_time(tid as int) == grown.keep_time(tid as int));
                            assert(self.keeps()[tid as int] is Some);
                        } else {
                            assert(self.keeps()[j] == grown.keeps()[j]);
                        }
                    }
                }
            }
            assert(self.keep_fl(tid as int) =~= fl_swept(fl0, *self)) by {
                assert forall|j: int| 0 <= j < list_len implies self.keep_fl(tid as int)[j]
                    == fl_swept(fl0, *self)[j] by {
                    match fl0[j] {
                        Some(tp) => {
                            assert(grown.all_past(tp.1) == self.all_past(tp.1));
                        },
                        None => (),
                    }
                }
            }
            assert forall|t: u64| #[trigger] all_past_for(*old(self), tid as int, t)
                == grown.all_past(t) by {
                if all_past_for(*old(self), tid as int, t) {
                    assert forall|j: int|
                        0 <= j < grown.keeps().len() && grown.keeps()[j] is Some implies (
                    #[trigger] grown.keeps()[j])->Some_0.cur_time > t by {
                        if j == tid {
                            assert(grown.keep_time(tid as int) == old(self).keep_time(tid as int));
                        } else {
                            if j < old(self).keeps().len() {
                                assert(grown.keeps()[j] == old(self).keeps()[j]);
                            }
                        }
                    }
                }
                if grown.all_past(t) {
                    assert(grown.keeps()[tid as int] is Some);
                    assert(grown.keep_time(tid as int) == old(self).keep_time(tid as int));
                    assert forall|j: int|
                        0 <= j < old(self).keeps().len() && j != tid && old(self).keeps()[j]
                            is Some implies (#[trigger] old(self).keeps()[j])->Some_0.cur_time
                        > t by {
                        assert(grown.keeps()[j] == old(self).keeps()[j]);
                    }
                }
            }
            assert(self.keep_fl(tid as int) =~= fl_swept_for(fl0, *old(self), tid as int)) by {
                assert forall|j: int| 0 <= j < list_len implies self.keep_fl(tid as int)[j]
                    == fl_swept_for(fl0, *old(self), tid as int)[j] by {
                    match fl0[j] {
                        Some(tp) => {
                            assert(all_past_for(*old(self), tid as int, tp.1) == grown.all_past(
                                tp.1,
                            ));
                            assert(grown.all_past(tp.1) == self.all_past(tp.1));
                        },
                        None => (),
                    }
                }
            }
        }
        freed
    }

    /// Sweeps `tid`'s free list, publishes the current value's timestamp
    /// as `tid`'s observed time, and returns a borrow of the current
    /// value.
    pub fn read(&mut self, tid: usize, free_lim: u32) -> (r: Option<&TimePtr<T>>)
        requires
            tid < usize::MAX,
        ensures
            final(self).current() == old(self).current(),
            match r {
                Some(p) => old(self).current() == Some(*p),
                None => old(self).current() is None,
            },
            final(self).keeps()[tid as int] is Some,
            final(self).keep_time(tid as int) == match old(self).current() {
                Some(tp) => tp.1,
                None => old(self).keep_time(tid as int),
            },
            final(self).keep_fl(tid as int) == fl_after_run_for(
                old(self).keep_fl(tid as int),
                *old(self),
                tid as int,
                free_lim,
            ),
            final(self).keeps().len() == if tid < old(self).keeps().len() {
                old(self).keeps().len() as int
            } else {
                tid + 1
            },
            forall|j: int|
                0 <= j < final(self).keeps().len() && j != tid ==> (#[trigger] final(
                self
                ).keeps()[j]) == (if j < old(self).keeps().len() {
                    old(self).keeps()[j]
                } else {
                    None
                }),
    {
        self.free_run(tid, free_lim);
        let has = self.cur.is_some();
        if has {
            let t = match &self.cur {
                Some(tp) => tp.1,
                None => 0,
            };
            match &mut self.time_keeps[tid] {
                Some(stor) => {
                    stor.cur_time = t;
                },
                None => {
                    unreached::<()>()
                },
            }
        }
        match &self.cur {
            Some(tp) => Some(tp),
            None => None,
        }
    }
}


/// Reclamation safety: a sweep frees a retired value only once every
/// registered thread's observed time lies strictly past the value's
/// timestamp, and keeps every other value exactly where it was.
pub proof fn lemma_reclamation_safety<T>(
    fl: Seq<Option<TimePtr<T>>>,
    sh: Shared<T>,
    lim: u32,
    i: int,
)
    requires
        0 <= i < fl.len(),
        fl[i] is Some,
    ensures
        fl_after_run(fl, sh, lim)[i] is None ==> sh.all_past(fl[i]->Some_0.1),
        !sh.all_past(fl[i]->Some_0.1) ==> fl_after_run(fl, sh, lim)[i] == fl[i],
{
}

} // verus!