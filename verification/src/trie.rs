//! The integer-keyed binary trie used as a per-thread registry: a key is
//! walked bit by bit, low bit first, and each node holds an optional
//! value.

use vstd::prelude::*;
use crate::traits::NewType;

verus! {

/// The bits of `n`, low first; empty for 0.
pub open spec fn spec_bits(n: nat) -> Seq<int>
    decreases n,
{
    if n == 0 {
        Seq::empty()
    } else {
        seq![(n % 2) as int] + spec_bits(n / 2)
    }
}

/// The node path a key selects: its bits, low first, with key 0 walking
/// the single step to the zero child.
pub open spec fn spec_bit_path(n: nat) -> Seq<int> {
    if n == 0 {
        seq![0int]
    } else {
        spec_bits(n)
    }
}

/// The two shortest paths, spelled out.
pub proof fn lemma_base_paths()
    ensures
        spec_bit_path(0) =~= seq![0int],
        spec_bit_path(1) =~= seq![1int],
        spec_bit_path(0).len() == 1 && spec_bit_path(0)[0] == 0,
        spec_bit_path(1).len() == 1 && spec_bit_path(1)[0] == 1,
{
    assert(spec_bits(0nat) =~= Seq::<int>::empty());
    assert(spec_bits(1nat) == seq![1int] + spec_bits(0nat));
    assert(spec_bits(1nat) =~= seq![1int]);
}

/// For a key of at least 2, the path is its low bit then the path of the
/// halved key.
pub proof fn lemma_path_step(seq: nat)
    requires
        seq >= 2,
    ensures
        spec_bit_path(seq).len() >= 1,
        spec_bit_path(seq)[0] == (seq % 2) as int,
        spec_bit_path(seq).subrange(1, spec_bit_path(seq).len() as int) =~= spec_bit_path(seq / 2),
{
    assert(spec_bits(seq) == seq![(seq % 2) as int] + spec_bits(seq / 2));
    assert(spec_bits(seq).subrange(1, spec_bits(seq).len() as int) =~= spec_bits(seq / 2));
}

/// One node: an optional boxed value and two optional children.
#[derive(Debug)]
pub struct IntNode<T> {
    pub val: Option<Box<T>>,
    pub zero: Option<Box<IntNode<T>>>,
    pub one: Option<Box<IntNode<T>>>,
}

impl<T> NewType for IntNode<T> {
    fn new() -> Self {
        IntNode { val: None, zero: None, one: None }
    }
}

impl<T> IntNode<T> {
    /// The node reached from `self` by following `path`, if every step
    /// exists.
    pub open spec fn node_at(self, path: Seq<int>) -> Option<IntNode<T>>
        decreases path.len(),
    {
        if path.len() == 0 {
            Some(self)
        } else {
            let kid = if path[0] == 0 {
                self.zero
            } else {
                self.one
            };
            match kid {
                Some(b) => (*b).node_at(path.subrange(1, path.len() as int)),
                None => None,
            }
        }
    }

    /// The value stored at the end of `path`, if the path and the value
    /// exist.
    pub open spec fn val_at(self, path: Seq<int>) -> Option<T> {
        match self.node_at(path) {
            Some(n) => match n.val {
                Some(b) => Some(*b),
                None => None,
            },
            None => None,
        }
    }

    /// Installs a fresh, empty zero child, replacing any present one.
    pub fn create_0(&mut self)
        ensures
            *final(self) == (IntNode {
                zero: Some(
                    Box::new(IntNode { val: None, zero: None, one: None }),
                ),
                ..*old(self)
            }),
    {
        self.zero = Some(Box::new(IntNode { val: None, zero: None, one: None }));
    }

    /// Installs a fresh, empty one child, replacing any present one.
    pub fn create_1(&mut self)
        ensures
            *final(self) == (IntNode {
                one: Some(
                    Box::new(IntNode { val: None, zero: None, one: None }),
                ),
                ..*old(self)
            }),
    {
        self.one = Some(Box::new(IntNode { val: None, zero: None, one: None }));
    }

    /// Makes sure the zero child exists, creating an empty one when
    /// absent; an existing child is kept as it is.
    pub fn get_0(&mut self)
        ensures
            final(self).zero is Some,
            final(self).val == old(self).val,
            final(self).one == old(self).one,
            old(self).zero is Some ==> *final(self) == *old(self),
            old(self).zero is None ==> *final(self).zero->Some_0 == (IntNode::<T> {
                val: None,
                zero: None,
                one: None,
            }),
    {
        if self.zero.is_none() {
            self.zero = Some(Box::new(IntNode { val: None, zero: None, one: None }));
        }
    }

    /// Makes sure the one child exists, creating an empty one when
    /// absent; an existing child is kept as it is.
    pub fn get_1(&mut self)
        ensures
            final(self).one is Some,
            final(self).val == old(self).val,
            final(self).zero == old(self).zero,
            old(self).one is Some ==> *final(self) == *old(self),
            old(self).one is None ==> *final(self).one->Some_0 == (IntNode::<T> {
                val: None,
                zero: None,
                one: None,
            }),
    {
        if self.one.is_none() {
            self.one = Some(Box::new(IntNode { val: None, zero: None, one: None }));
        }
    }

    /// Makes sure the node selected by `seq` exists, creating missing
    /// steps; the value already stored at its end, if any, is kept.
    pub fn get_seq(&mut self, seq: usize)
        ensures
            final(self).node_at(spec_bit_path(seq as nat)) is Some,
            final(self).val_at(spec_bit_path(seq as nat)) == old(self).val_at(
                spec_bit_path(seq as nat),
            ),
        decreases seq,
    {
        if seq == 0 || seq == 1 {
            if seq == 0 {
                self.get_0();
            } else {
                self.get_1();
            }
            proof {
                lemma_base_paths();
                let p = spec_bit_path(seq as nat);
                assert(p.subrange(1, 1) =~= Seq::<int>::empty());
                let kid = if seq == 0 {
                    self.zero
                } else {
                    self.one
                };
                assert(kid is Some);
                assert((*kid->Some_0).node_at(p.subrange(1, 1)) is Some);
                assert(self.node_at(p) is Some);
                assert(self.node_at(p) == Some(*kid->Some_0));
                let okid = if seq == 0 {
                    old(self).zero
                } else {
                    old(self).one
                };
                match okid {
                    Some(ob) => {
                        assert(old(self).node_at(p) == Some(*ob));
                    },
                    None => {
                        assert(old(self).node_at(p) is None);
                        assert((*kid->Some_0).val is None);
                    },
                }
            }
        } else {
            let bit = seq % 2;
            if bit == 0 {
                self.get_0();
                match &mut self.zero {
                    Some(b) => {
                        (&mut **b).get_seq(seq / 2);
                    },
                    None => {
                        unreached::<()>()
                    },
                }
            } else {
                self.get_1();
                match &mut self.one {
                    Some(b) => {
                        (&mut **b).get_seq(seq / 2);
                    },
                    None => {
                        unreached::<()>()
                    },
                }
            }
            proof {
                lemma_path_step(seq as nat);
                let p = spec_bit_path(seq as nat);
                let p2 = p.subrange(1, p.len() as int);
                assert(p2 == spec_bit_path((seq / 2) as nat));
                let kid = if bit == 0 {
                    self.zero
                } else {
                    self.one
                };
                assert(kid is Some);
                assert(self.node_at(p) == (*kid->Some_0).node_at(p2));
                let okid = if bit == 0 {
                    old(self).zero
                } else {
                    old(self).one
                };
                match okid {
                    Some(ob) => {
                        assert(old(self).node_at(p) == (*ob).node_at(p2));
                    },
                    None => {
                        assert(old(self).node_at(p) is None);
                        assert(spec_bits((seq / 2) as nat).len() >= 1);
                        assert((IntNode::<T> { val: None, zero: None, one: None }).node_at(p2)
                            is None);
                    },
                }
            }
        }
    }

    /// Creates the node selected by `seq`, installing fresh steps along
    /// the whole path and discarding what they replace.
    pub fn create_seq(&mut self, seq: usize)
        ensures
            final(self).node_at(spec_bit_path(seq as nat)) is Some,
        decreases seq,
    {
        if seq == 0 || seq == 1 {
            if seq == 0 {
                self.create_0();
            } else {
                self.create_1();
            }
            proof {
                lemma_base_paths();
                let p = spec_bit_path(seq as nat);
                assert(p.subrange(1, 1) =~= Seq::<int>::empty());
                let kid = if seq == 0 {
                    self.zero
                } else {
                    self.one
                };
                assert(kid is Some);
                assert((*kid->Some_0).node_at(p.subrange(1, 1)) is Some);
                assert(self.node_at(p) is Some);
            }
        } else {
            let bit = seq % 2;
            if bit == 0 {
                self.create_0();
                match &mut self.zero {
                    Some(b) => {
                        (&mut **b).create_seq(seq / 2);
                    },
                    None => {
                        unreached::<()>()
                    },
                }
            } else {
                self.create_1();
                match &mut self.one {
                    Some(b) => {
                        (&mut **b).create_seq(seq / 2);
                    },
                    None => {
                        unreached::<()>()
                    },
                }
            }
            proof {
                lemma_path_step(seq as nat);
                let p = spec_bit_path(seq as nat);
                let p2 = p.subrange(1, p.len() as int);
                assert(p2 == spec_bit_path((seq / 2) as nat));
                let kid = if bit == 0 {
                    self.zero
                } else {
                    self.one
                };
                assert(kid is Some);
                assert(self.node_at(p) == (*kid->Some_0).node_at(p2));
            }
        }
    }

    /// Makes sure the node selected by `seq` exists and holds a value,
    /// initializing a default one when absent; an existing value is kept.
    fn ensure_entry(&mut self, seq: usize) where T: NewType
        ensures
            final(self).val_at(spec_bit_path(seq as nat)) is Some,
            old(self).val_at(spec_bit_path(seq as nat)) is Some ==> final(self).val_at(
                spec_bit_path(seq as nat),
            ) == old(self).val_at(spec_bit_path(seq as nat)),
        decreases seq,
    {
        if seq == 0 || seq == 1 {
            if seq == 0 {
                self.get_0();
            } else {
                self.get_1();
            }
            let ghost pre = *self;
            if seq == 0 {
                match self.zero.take() {
                    Some(b) => {
                        let mut node = *b;
                        if node.val.is_none() {
                            node.val = Some(Box::new(T::new()));
                        }
                        self.zero = Some(Box::new(node));
                    },
                    None => {
                        unreached::<()>()
                    },
                }
            } else {
                match self.one.take() {
                    Some(b) => {
                        let mut node = *b;
                        if node.val.is_none() {
                            node.val = Some(Box::new(T::new()));
                        }
                        self.one = Some(Box::new(node));
                    },
                    None => {
                        unreached::<()>()
                    },
                }
            }
            proof {
                lemma_base_paths();
                let p = spec_bit_path(seq as nat);
                assert(p.subrange(1, 1) =~= Seq::<int>::empty());
                let k2 = if seq == 0 {
                    self.zero
                } else {
                    self.one
                };
                assert(k2 is Some);
                assert((*k2->Some_0).node_at(p.subrange(1, 1)) == Some(*k2->Some_0));
                assert(self.node_at(p) == Some(*k2->Some_0));
                assert((*k2->Some_0).val is Some);
                assert(self.val_at(p) is Some);
                let kpre = if seq == 0 {
                    pre.zero
                } else {
                    pre.one
                };
                assert(kpre is Some);
                assert((*kpre->Some_0).node_at(p.subrange(1, 1)) == Some(*kpre->Some_0));
                assert(pre.node_at(p) == Some(*kpre->Some_0));
                let okid = if seq == 0 {
                    old(self).zero
                } else {
                    old(self).one
                };
                match okid {
                    Some(ob) => {
                        assert(old(self).node_at(p) == Some(*ob));
                        assert(pre == *old(self));
                        if (*ob).val is Some {
                            assert(old(self).val_at(p) == Some(*(*ob).val->Some_0));
                            assert((*k2->Some_0).val == (*ob).val);
                            assert(self.val_at(p) == old(self).val_at(p));
                        }
                    },
                    None => {
                        assert(old(self).node_at(p) is None);
                        assert(old(self).val_at(p) is None);
                        assert((*kpre->Some_0).val is None);
                    },
                }
            }
        } else {
            let bit = seq % 2;
            if bit == 0 {
                self.get_0();
                match &mut self.zero {
                    Some(b) => {
                        (&mut **b).ensure_entry(seq / 2);
                    },
                    None => {
                        unreached::<()>()
                    },
                }
            } else {
                self.get_1();
                match &mut self.one {
                    Some(b) => {
                        (&mut **b).ensure_entry(seq / 2);
                    },
                    None => {
                        unreached::<()>()
                    },
                }
            }
            proof {
                lemma_path_step(seq as nat);
                let p = spec_bit_path(seq as nat);
                let p2 = p.subrange(1, p.len() as int);
                assert(p2 == spec_bit_path((seq / 2) as nat));
                let kid = if bit == 0 {
                    self.zero
                } else {
                    self.one
                };
                assert(kid is Some);
                assert(self.node_at(p) == (*kid->Some_0).node_at(p2));
                let okid = if bit == 0 {
                    old(self).zero
                } else {
                    old(self).one
                };
                match okid {
                    Some(ob) => {
                        assert(old(self).node_at(p) == (*ob).node_at(p2));
                    },
                    None => {
                        assert(old(self).node_at(p) is None);
                        assert(spec_bits((seq / 2) as nat).len() >= 1);
                        assert((IntNode::<T> { val: None, zero: None, one: None }).node_at(p2)
                            is None);
                    },
                }
            }
        }
    }

    /// A borrow of the value at the end of `seq`'s path.
    fn val_ref(&self, seq: usize) -> (r: &T)
        requires
            self.val_at(spec_bit_path(seq as nat)) is Some,
        ensures
            Some(*r) == self.val_at(spec_bit_path(seq as nat)),
        decreases seq,
    {
        proof {
            lemma_base_paths();
            if seq >= 2 {
                lemma_path_step(seq as nat);
            }
            assert(spec_bit_path(0).subrange(1, 1) =~= Seq::<int>::empty());
            assert(spec_bit_path(1).subrange(1, 1) =~= Seq::<int>::empty());
        }
        if seq == 0 || seq == 1 {
            proof {
                let p = spec_bit_path(seq as nat);
                let kid = if seq == 0 {
                    self.zero
                } else {
                    self.one
                };
                if kid is Some {
                    assert((*kid->Some_0).node_at(p.subrange(1, 1)) == Some(*kid->Some_0));
                    assert(self.node_at(p) == Some(*kid->Some_0));
                } else {
                    assert(self.node_at(p) is None);
                }
            }
            let kid = if seq == 0 {
                &self.zero
            } else {
                &self.one
            };
            match kid {
                Some(b) => {
                    match &(&**b).val {
                        Some(v) => &**v,
                        None => unreached(),
                    }
                },
                None => unreached(),
            }
        } else {
            let bit = seq % 2;
            proof {
                let p = spec_bit_path(seq as nat);
                let p2 = p.subrange(1, p.len() as int);
                assert(p2 == spec_bit_path((seq / 2) as nat));
                let kid = if bit == 0 {
                    self.zero
                } else {
                    self.one
                };
                if kid is Some {
                    assert(self.node_at(p) == (*kid->Some_0).node_at(p2));
                } else {
                    assert(self.node_at(p) is None);
                }
            }
            let kid = if bit == 0 {
                &self.zero
            } else {
                &self.one
            };
            match kid {
                Some(b) => {
                    let r = (&**b).val_ref(seq / 2);
                    r
                },
                None => unreached(),
            }
        }
    }

    /// A path through an existing child reads the child's value.
    proof fn lemma_val_at_child(self, bit: int, p: Seq<int>)
        requires
            bit == 0 || bit == 1,
            (if bit == 0 {
                self.zero
            } else {
                self.one
            }) is Some,
        ensures
            self.val_at(seq![bit] + p) == (*(if bit == 0 {
                self.zero
            } else {
                self.one
            })->Some_0).val_at(p),
    {
        let full = seq![bit] + p;
        assert(full[0] == bit);
        assert(full.subrange(1, full.len() as int) =~= p);
    }

    /// Whether `func` answers true for at least one value in the trie,
    /// visiting values until one does.  A true answer names a stored
    /// value the function accepted; nothing general can be said of a
    /// false answer, since the function may answer differently on equal
    /// arguments across calls.
    pub fn check_if_one<P, F: Fn(&T, &P) -> bool>(&self, func: &F, arg: &P) -> (r: bool)
        requires
            forall|v: &T, a: &P| #[trigger] func.requires((v, a)),
        ensures
            r ==> exists|p: Seq<int>|
                (#[trigger] self.val_at(p)) is Some && func.ensures(
                    (&self.val_at(p)->Some_0, arg),
                    true,
                ),
        decreases *self,
    {
        match &self.val {
            Some(v) => {
                if func(&**v, arg) {
                    proof {
                        let p = Seq::<int>::empty();
                        assert(self.node_at(p) == Some(*self));
                        assert(self.val_at(p) is Some);
                        assert(self.val_at(p)->Some_0 == **v);
                    }
                    return true;
                }
            },
            None => (),
        }
        match &self.zero {
            Some(b) => {
                if (&**b).check_if_one(func, arg) {
                    proof {
                        let p2 = choose|p2: Seq<int>|
                            (#[trigger] (**b).val_at(p2)) is Some && func.ensures(
                                (&(**b).val_at(p2)->Some_0, arg),
                                true,
                            );
                        self.lemma_val_at_child(0, p2);
                        assert(self.val_at(seq![0int] + p2) is Some);
                    }
                    return true;
                }
            },
            None => (),
        }
        match &self.one {
            Some(b) => {
                if (&**b).check_if_one(func, arg) {
                    proof {
                        let p2 = choose|p2: Seq<int>|
                            (#[trigger] (**b).val_at(p2)) is Some && func.ensures(
                                (&(**b).val_at(p2)->Some_0, arg),
                                true,
                            );
                        self.lemma_val_at_child(1, p2);
                        assert(self.val_at(seq![1int] + p2) is Some);
                    }
                    return true;
                }
            },
            None => (),
        }
        false
    }
}

/// A trie keyed by integers, with slots pre-created up to `size` and the
/// rest created lazily on first touch.
#[derive(Debug)]
pub struct IntTrie<T> {
    pub nodes: IntNode<T>,
}

impl<T: NewType> IntTrie<T> {
    /// A trie with the node paths of keys below `size` pre-created
    /// opportunistically; any path is created on demand later.
    pub fn new(size: usize) -> (r: IntTrie<T>)
        ensures
            size > 0 ==> r.nodes.node_at(spec_bit_path((size - 1) as nat)) is Some,
    {
        let mut base = IntNode { val: None, zero: None, one: None };
        let mut i: usize = 0;
        while i < size
            invariant
                i <= size,
                i > 0 ==> base.node_at(spec_bit_path((i - 1) as nat)) is Some,
            decreases size - i,
        {
            base.create_seq(i);
            i += 1;
        }
        IntTrie { nodes: base }
    }

    /// Makes sure the node for `key` exists, creating it when missing,
    /// and returns a borrow of the trie's base node.
    pub fn get_node(&mut self, key: usize) -> (r: &IntNode<T>)
        ensures
            final(self).nodes.node_at(spec_bit_path(key as nat)) is Some,
            *r == final(self).nodes,
            final(self).nodes.val_at(spec_bit_path(key as nat)) == old(self).nodes.val_at(
                spec_bit_path(key as nat),
            ),
    {
        self.nodes.get_seq(key);
        &self.nodes
    }

    /// Whether `func` answers true for at least one value in the trie.
    /// A true answer names a stored value the function accepted.
    pub fn check_if_one<P, F: Fn(&T, &P) -> bool>(&self, func: &F, arg: &P) -> (r: bool)
        requires
            forall|v: &T, a: &P| #[trigger] func.requires((v, a)),
        ensures
            r ==> exists|p: Seq<int>|
                (#[trigger] self.nodes.val_at(p)) is Some && func.ensures(
                    (&self.nodes.val_at(p)->Some_0, arg),
                    true,
                ),
    {
        self.nodes.check_if_one(func, arg)
    }

    /// The value slot for thread `tid`, created and default-initialized
    /// on the thread's first touch and stable afterwards.
    pub fn get_by_tid(&mut self, tid: usize) -> (r: &T)
        ensures
            final(self).nodes.val_at(spec_bit_path(tid as nat)) == Some(*r),
            old(self).nodes.val_at(spec_bit_path(tid as nat)) is Some ==> Some(*r) == old(
                self,
            ).nodes.val_at(spec_bit_path(tid as nat)),
    {
        self.nodes.ensure_entry(tid);
        self.nodes.val_ref(tid)
    }
}

} // verus!
