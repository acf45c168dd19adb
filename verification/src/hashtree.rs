//! The hash trie: tables of slots indexed by a salted hash of the key,
//! items holding one key's value, and per-slot overflow tables whose salt
//! evolves with the clock to resolve collisions.

use vstd::prelude::*;
use crate::traits::NewType;
use crate::fast_output::spec_le_u64_at;
use crate::fast_output::read_u64_le;
use vstd::string::StringSliceAdditionalSpecFns;

verus! {

pub const DEFAULT_HASH_BASE: u64 = 0x5331;

/// A 64-bit hash salt together with the rotate-mix-XOR walk below.
#[derive(Debug, Clone, Copy)]
pub struct HashScheme(u64);

/// One step of the byte-aligned hash walk.
pub open spec fn spec_hash_step1(base: u64, b: u8) -> u64 {
    ((base << (b & 0x2a)) | (base >> (b & 0x2a))) ^ (b as u64)
}

/// The byte-aligned hash of `s`, walked left to right from `base`.
pub open spec fn spec_hash1(base: u64, s: Seq<u8>) -> u64
    decreases s.len(),
{
    if s.len() == 0 {
        base
    } else {
        spec_hash1(spec_hash_step1(base, s[0]), s.subrange(1, s.len() as int))
    }
}

/// One step of the word-aligned hash walk.
pub open spec fn spec_hash_step8(base: u64, w: u64) -> u64 {
    ((base << 29) | (base >> 29)) ^ w
}

/// The word-aligned hash of `s` from word index `i` on: eight bytes are
/// consumed per step, a trailing partial word is ignored.
pub open spec fn spec_hash8_from(base: u64, s: Seq<u8>, i: int) -> u64
    decreases s.len() / 8 - i,
{
    if i < 0 || i >= s.len() / 8 {
        base
    } else {
        spec_hash8_from(spec_hash_step8(base, spec_le_u64_at(s, 8 * i)), s, i + 1)
    }
}

/// The hash of `s` under the given salt and alignment.
pub open spec fn spec_hash(base: u64, s: Seq<u8>, align: int) -> u64 {
    if align == 1 {
        spec_hash1(base, s)
    } else {
        spec_hash8_from(base, s, 0)
    }
}

impl HashScheme {
    /// The salt this scheme hashes with.
    pub closed spec fn base(&self) -> u64 {
        self.0
    }

    /// The default first-generation scheme.
    pub fn default() -> (r: HashScheme)
        ensures
            r.base() == DEFAULT_HASH_BASE,
    {
        HashScheme(DEFAULT_HASH_BASE)
    }

    /// Hashes `data` with this scheme's salt under the given alignment.
    pub fn hash(&self, data: &Vec<u8>, align: usize) -> (r: u64)
        requires
            align == 1 || align == 8,
        ensures
            r == spec_hash(self.base(), data@, align as int),
    {
        proof {
            vstd::std_specs::vec::axiom_spec_len(data);
        }
        if align == 1 {
            let mut base = self.0;
            let mut i: usize = 0;
            let len = data.len();
            proof {
                assert(data@.subrange(0, len as int) =~= data@);
            }
            while i < len
                invariant
                    i <= len,
                    len == data@.len(),
                    spec_hash1(self.base(), data@) == spec_hash1(
                        base,
                        data@.subrange(i as int, len as int),
                    ),
                decreases len - i,
            {
                let b = data[i];
                proof {
                    let tail = data@.subrange(i as int, len as int);
                    assert(tail[0] == data@[i as int]);
                    assert(tail.subrange(1, tail.len() as int) =~= data@.subrange(
                        i as int + 1,
                        len as int,
                    ));
                }
                assert((b & 0x2a) < 64u8) by (bit_vector);
                base = ((base << (b & 0x2a)) | (base >> (b & 0x2a))) ^ (b as u64);
                i += 1;
            }
            proof {
                assert(data@.subrange(len as int, len as int) =~= Seq::<u8>::empty());
            }
            base
        } else {
            let mut base = self.0;
            let words = data.len() / 8;
            let mut i: usize = 0;
            while i < words
                invariant
                    i <= words,
                    words == data@.len() / 8,
                    data@.len() <= usize::MAX,
                    spec_hash8_from(self.base(), data@, 0) == spec_hash8_from(
                        base,
                        data@,
                        i as int,
                    ),
                decreases words - i,
            {
                let w = read_u64_le(data, 8 * i);
                base = ((base << 29) | (base >> 29)) ^ w;
                i += 1;
            }
            base
        }
    }

    /// Derives the next-generation scheme by mixing the clock tick `now`
    /// into the salt.
    pub fn evolve(&self, now: u64) -> (r: HashScheme)
        ensures
            r.base() == self.base() ^ now,
    {
        HashScheme(self.0 ^ now)
    }
}

/// The hash trie.  A `Table` holds a scheme and a vector of slots; a slot
/// is empty or holds an `Item` chain.  An `Item` carries its key bytes,
/// the stored value, and an optional next-generation table for keys that
/// collided with it.
#[derive(Debug)]
pub enum HashTree<T> {
    Table(HashScheme, Vec<Option<Box<HashTree<T>>>>),
    Item(Vec<u8>, T, Option<Box<HashTree<T>>>),
}

impl<T> HashTree<T> {
    /// The key-to-value map this tree holds.
    pub open spec fn as_map(self) -> Map<Seq<u8>, T>
        decreases self, 1int,
    {
        match self {
            HashTree::Item(k, v, ov) => (match ov {
                Some(t) => t.as_map(),
                None => Map::empty(),
            }).insert(k@, v),
            HashTree::Table(_, slots) => Self::slots_map(slots@),
        }
    }

    /// The union of the maps held by a table's slots.
    pub open spec fn slots_map(s: Seq<Option<Box<HashTree<T>>>>) -> Map<Seq<u8>, T>
        decreases s, 0int,
    {
        if s.len() == 0 {
            Map::empty()
        } else {
            Self::opt_map(s[0]).union_prefer_right(Self::slots_map(s.subrange(1, s.len() as int)))
        }
    }

    /// The map held below one slot.
    pub open spec fn opt_map(o: Option<Box<HashTree<T>>>) -> Map<Seq<u8>, T>
        decreases o, 2int,
    {
        match o {
            Some(t) => t.as_map(),
            None => Map::empty(),
        }
    }

    /// Well-formedness of a table under `align`: slots exist, and every
    /// slot holds only item chains whose keys hash to that slot.
    pub open spec fn wf(self, align: int) -> bool
        decreases self, 1int,
    {
        match self {
            HashTree::Table(scheme, slots) => {
                &&& slots@.len() > 0
                &&& forall|i: int|
                    0 <= i < slots@.len() ==> Self::slot_wf(
                        #[trigger] slots@[i],
                        scheme,
                        slots@.len() as nat,
                        i,
                        align,
                    )
            },
            HashTree::Item(_, _, _) => false,
        }
    }

    /// Well-formedness of one slot: empty, or an item chain whose keys
    /// all hash to `idx` and whose overflow is itself a well-formed table.
    pub open spec fn slot_wf(
        o: Option<Box<HashTree<T>>>,
        scheme: HashScheme,
        len: nat,
        idx: int,
        align: int,
    ) -> bool
        decreases o, 2int,
    {
        match o {
            None => true,
            Some(t) => {
                &&& t.chain_wf(align)
                &&& forall|k: Seq<u8>|
                    t.as_map().dom().contains(k) ==> #[trigger] spec_hash(scheme.base(), k, align)
                        as nat % len == idx
            },
        }
    }

    /// Well-formedness of an item chain: an item whose overflow, if any,
    /// is a well-formed table.
    pub open spec fn chain_wf(self, align: int) -> bool
        decreases self, 0int,
    {
        match self {
            HashTree::Item(_, _, ov) => match ov {
                None => true,
                Some(t) => t.wf(align),
            },
            HashTree::Table(_, _) => false,
        }
    }

    /// A key in one slot's map is in the union of all the slots' maps,
    /// with the same value.
    pub proof fn lemma_slots_map_mem(s: Seq<Option<Box<HashTree<T>>>>, i: int, k: Seq<u8>)
        requires
            0 <= i < s.len(),
            Self::opt_map(s[i]).dom().contains(k),
        ensures
            Self::slots_map(s).dom().contains(k),
        decreases s.len(),
    {
        if i > 0 {
            let rest = s.subrange(1, s.len() as int);
            assert(rest[i - 1] == s[i]);
            Self::lemma_slots_map_mem(rest, i - 1, k);
        }
    }

    /// A key in the union of the slots' maps is in some slot's map.
    proof fn lemma_slots_map_mem_inv(s: Seq<Option<Box<HashTree<T>>>>, k: Seq<u8>) -> (i: int)
        requires
            Self::slots_map(s).dom().contains(k),
        ensures
            0 <= i < s.len(),
            Self::opt_map(s[i]).dom().contains(k),
        decreases s.len(),
    {
        if Self::opt_map(s[0]).dom().contains(k) && !Self::slots_map(
            s.subrange(1, s.len() as int),
        ).dom().contains(k) {
            0
        } else {
            let rest = s.subrange(1, s.len() as int);
            let j = Self::lemma_slots_map_mem_inv(rest, k) + 1;
            assert(rest[j - 1] == s[j]);
            j
        }
    }

    /// When exactly one slot holds a key, the union takes that slot's
    /// value for it.
    pub proof fn lemma_slots_map_get(s: Seq<Option<Box<HashTree<T>>>>, i: int, k: Seq<u8>)
        requires
            0 <= i < s.len(),
            Self::opt_map(s[i]).dom().contains(k),
            forall|j: int| 0 <= j < s.len() && j != i ==> !Self::opt_map(#[trigger] s[j]).dom().contains(k),
        ensures
            Self::slots_map(s).dom().contains(k),
            Self::slots_map(s)[k] == Self::opt_map(s[i])[k],
        decreases s.len(),
    {
        Self::lemma_slots_map_mem(s, i, k);
        let rest = s.subrange(1, s.len() as int);
        if i == 0 {
            if Self::slots_map(rest).dom().contains(k) {
                let j = Self::lemma_slots_map_mem_inv(rest, k);
                assert(s[j + 1] == rest[j]);
                assert(false);
            }
        } else {
            assert(rest[i - 1] == s[i]);
            assert(forall|j: int|
                0 <= j < rest.len() && j != i - 1 ==> rest[j] == s[j + 1]
                    && !Self::opt_map(#[trigger] rest[j]).dom().contains(k));
            Self::lemma_slots_map_get(rest, i - 1, k);
            assert(!Self::opt_map(s[0]).dom().contains(k));
        }
    }

    /// A table of empty slots holds the empty map.
    proof fn lemma_slots_map_empty(s: Seq<Option<Box<HashTree<T>>>>)
        requires
            forall|i: int| 0 <= i < s.len() ==> #[trigger] s[i] is None,
        ensures
            Self::slots_map(s) =~= Map::<Seq<u8>, T>::empty(),
        decreases s.len(),
    {
        if s.len() > 0 {
            let rest = s.subrange(1, s.len() as int);
            assert(forall|i: int| 0 <= i < rest.len() ==> #[trigger] rest[i] == s[i + 1] && s[i + 1]
                is None);
            Self::lemma_slots_map_empty(rest);
            assert(s[0] is None);
            assert(Self::opt_map(s[0]) =~= Map::<Seq<u8>, T>::empty());
            assert(Self::slots_map(s) == Self::opt_map(s[0]).union_prefer_right(
                Self::slots_map(rest),
            ));
            assert(Self::slots_map(s) =~= Map::<Seq<u8>, T>::empty());
        }
    }
}

/// Byte-wise key equality; both supported alignments compare every byte.
pub fn compare_aligned(lfs: &Vec<u8>, rfs: &Vec<u8>, align: usize) -> (r: bool)
    requires
        align == 1 || align == 8,
    ensures
        r == (lfs@ == rfs@),
{
    if lfs.len() != rfs.len() {
        proof {
            assert(lfs@.len() != rfs@.len());
        }
        return false;
    }
    let mut i: usize = 0;
    while i < lfs.len()
        invariant
            i <= lfs@.len(),
            lfs@.len() == rfs@.len(),
            forall|j: int| 0 <= j < i ==> lfs@[j] == rfs@[j],
        decreases lfs@.len() - i,
    {
        if lfs[i] != rfs[i] {
            return false;
        }
        i += 1;
    }
    proof {
        assert(lfs@ =~= rfs@);
    }
    true
}

impl<T: NewType> HashTree<T> {
    /// A fresh table with `slot_count` empty slots under `hasher`.
    pub fn new_table(hasher: HashScheme, slot_count: usize) -> (r: HashTree<T>)
        ensures
            r is Table,
            r->Table_0 == hasher,
            r->Table_1@.len() == slot_count,
            r.as_map() =~= Map::<Seq<u8>, T>::empty(),
            forall|j: int| 0 <= j < slot_count ==> #[trigger] r->Table_1@[j] is None,
            slot_count > 0 ==> forall|a: int| r.wf(a),
    {
        let mut slots: Vec<Option<Box<HashTree<T>>>> = Vec::new();
        let mut i: usize = 0;
        while i < slot_count
            invariant
                slots@.len() == i,
                i <= slot_count,
                forall|j: int| 0 <= j < i ==> #[trigger] slots@[j] is None,
            decreases slot_count - i,
        {
            slots.push(None);
            i += 1;
        }
        proof {
            Self::lemma_slots_map_empty(slots@);
        }
        HashTree::Table(hasher, slots)
    }

    /// A fresh single item: the given key, a default value, no overflow.
    pub fn new_item(key: &Vec<u8>) -> (r: HashTree<T>)
        ensures
            r is Item,
            r->Item_0@ == key@,
            r->Item_2 is None,
    {
        HashTree::Item(key.clone(), T::new(), None)
    }

    /// The value stored in an item.
    pub fn value(&self) -> (r: &T)
        requires
            *self is Item,
        ensures
            *r == self->Item_1,
    {
        match self {
            HashTree::Item(_, v, _) => v,
            HashTree::Table(_, _) => unreached(),
        }
    }

    /// Looks the key up, returning a borrow of its value when present.
    pub fn find_bytes(&self, key: &Vec<u8>, align: usize) -> (r: Option<&T>)
        requires
            align == 1 || align == 8,
            *self is Table,
            self.wf(align as int),
        ensures
            match r {
                Some(v) => self.as_map().dom().contains(key@) && *v == self.as_map()[key@],
                None => !self.as_map().dom().contains(key@),
            },
        decreases *self,
    {
        match self {
            HashTree::Table(hasher, slots) => {
                let hashed = hasher.hash(key, align);
                let len64 = slots.len() as u64;
                let idx = (hashed % len64) as usize;
                proof {
                    assert(idx < slots@.len());
                }
                match &slots[idx] {
                    None => {
                        proof {
                            if Self::slots_map(slots@).dom().contains(key@) {
                                let j = Self::lemma_slots_map_mem_inv(slots@, key@);
                                assert(Self::slot_wf(
                                    slots@[j],
                                    *hasher,
                                    slots@.len() as nat,
                                    j,
                                    align as int,
                                ));
                            }
                        }
                        None
                    },
                    Some(b) => {
                        let item: &HashTree<T> = &**b;
                        match item {
                            HashTree::Item(k, v, ov) => {
                                proof {
                                    if Self::slots_map(slots@).dom().contains(key@) {
                                        let j = Self::lemma_slots_map_mem_inv(slots@, key@);
                                        assert(Self::slot_wf(
                                            slots@[j],
                                            *hasher,
                                            slots@.len() as nat,
                                            j,
                                            align as int,
                                        ));
                                        assert(j == idx);
                                        Self::lemma_slots_map_get(slots@, idx as int, key@);
                                    }
                                }
                                if compare_aligned(k, key, align) {
                                    proof {
                                        Self::lemma_slots_map_get(slots@, idx as int, key@);
                                    }
                                    Some(v)
                                } else {
                                    match ov {
                                        Some(coll) => {
                                            let sub: &HashTree<T> = &**coll;
                                            proof {
                                                assert(Self::slot_wf(
                                                    slots@[idx as int],
                                                    *hasher,
                                                    slots@.len() as nat,
                                                    idx as int,
                                                    align as int,
                                                ));
                                                assert((**b).chain_wf(align as int));
                                                assert(sub.wf(align as int));
                                            }
                                            let res = sub.find_bytes(key, align);
                                            proof {
                                                if sub.as_map().dom().contains(key@) {
                                                    Self::lemma_slots_map_get(
                                                        slots@,
                                                        idx as int,
                                                        key@,
                                                    );
                                                }
                                            }
                                            res
                                        },
                                        None => {
                                            None
                                        },
                                    }
                                }
                            },
                            HashTree::Table(_, _) => unreached(),
                        }
                    },
                }
            },
            HashTree::Item(_, _, _) => unreached(),
        }
    }

    /// Replacing one slot's map with the same map plus `key` changes the
    /// union of the slots' maps by exactly that key, provided no other
    /// slot knows the key and no key lives in two slots.
    proof fn lemma_slots_map_frame(
        s1: Seq<Option<Box<HashTree<T>>>>,
        s2: Seq<Option<Box<HashTree<T>>>>,
        i: int,
        key: Seq<u8>,
    )
        requires
            0 <= i < s1.len(),
            s2.len() == s1.len(),
            forall|j: int| 0 <= j < s1.len() && j != i ==> s2[j] == s1[j],
            forall|j: int|
                0 <= j < s1.len() && j != i ==> !Self::opt_map(#[trigger] s1[j]).dom().contains(
                    key,
                ),
            forall|j1: int, j2: int, k: Seq<u8>|
                0 <= j1 < s1.len() && 0 <= j2 < s1.len() && #[trigger] Self::opt_map(
                    s1[j1],
                ).dom().contains(k) && #[trigger] Self::opt_map(s1[j2]).dom().contains(k) ==> j1
                    == j2,
            Self::opt_map(s2[i]).dom() =~= Self::opt_map(s1[i]).dom().insert(key),
            forall|k: Seq<u8>|
                k != key && Self::opt_map(s1[i]).dom().contains(k) ==> #[trigger] (Self::opt_map(
                s2[i]
                )[k]) == Self::opt_map(s1[i])[k],
        ensures
            Self::slots_map(s2) =~= Self::slots_map(s1).insert(key, Self::opt_map(s2[i])[key]),
    {
        let m1 = Self::slots_map(s1);
        let m2 = Self::slots_map(s2);
        let v = Self::opt_map(s2[i])[key];
        let goal = m1.insert(key, v);
        assert(Self::opt_map(s2[i]).dom().contains(key));
        assert forall|k: Seq<u8>| #[trigger] m2.dom().contains(k) implies goal.dom().contains(k)
            && m2[k] == goal[k] by {
            let j = Self::lemma_slots_map_mem_inv(s2, k);
            if k == key {
                if j != i {
                    assert(s2[j] == s1[j]);
                    assert(!Self::opt_map(s1[j]).dom().contains(key));
                    assert(false);
                }
                assert forall|j2: int| 0 <= j2 < s2.len() && j2 != i implies !Self::opt_map(
                    #[trigger] s2[j2],
                ).dom().contains(key) by {
                    assert(s2[j2] == s1[j2]);
                }
                Self::lemma_slots_map_get(s2, i, key);
            } else {
                if j == i {
                    assert(Self::opt_map(s1[i]).dom().contains(k));
                    assert forall|j2: int| 0 <= j2 < s2.len() && j2 != i implies !Self::opt_map(
                        #[trigger] s2[j2],
                    ).dom().contains(k) by {
                        assert(s2[j2] == s1[j2]);
                        assert(Self::opt_map(s1[i]).dom().contains(k));
                        if Self::opt_map(s1[j2]).dom().contains(k) {
                            assert(false);
                        }
                    }
                    Self::lemma_slots_map_get(s2, i, k);
                    Self::lemma_slots_map_get(s1, i, k);
                } else {
                    assert(s2[j] == s1[j]);
                    assert(Self::opt_map(s1[j]).dom().contains(k));
                    assert(!Self::opt_map(s1[i]).dom().contains(k));
                    assert(!Self::opt_map(s2[i]).dom().contains(k));
                    assert forall|j2: int| 0 <= j2 < s2.len() && j2 != j implies !Self::opt_map(
                        #[trigger] s2[j2],
                    ).dom().contains(k) && !Self::opt_map(#[trigger] s1[j2]).dom().contains(k) by {
                        if j2 == i {
                        } else {
                            assert(s2[j2] == s1[j2]);
                            if Self::opt_map(s1[j2]).dom().contains(k) {
                                assert(false);
                            }
                        }
                    }
                    Self::lemma_slots_map_get(s2, j, k);
                    Self::lemma_slots_map_get(s1, j, k);
                }
            }
        }
        assert forall|k: Seq<u8>| #[trigger] goal.dom().contains(k) implies m2.dom().contains(
            k,
        ) by {
            if k == key {
                Self::lemma_slots_map_mem(s2, i, key);
            } else {
                let j = Self::lemma_slots_map_mem_inv(s1, k);
                if j == i {
                    assert(Self::opt_map(s2[i]).dom().contains(k));
                    Self::lemma_slots_map_mem(s2, i, k);
                } else {
                    assert(s2[j] == s1[j]);
                    Self::lemma_slots_map_mem(s2, j, k);
                }
            }
        }
        assert(m2.dom() =~= goal.dom());
        assert(m2 =~= goal);
    }

    /// In a well-formed table no key lives in two different slots.
    proof fn lemma_wf_localizes(self, align: int)
        requires
            self is Table,
            self.wf(align),
        ensures
            forall|j1: int, j2: int, k: Seq<u8>|
                0 <= j1 < self->Table_1@.len() && 0 <= j2 < self->Table_1@.len()
                    && #[trigger] Self::opt_map(self->Table_1@[j1]).dom().contains(k)
                    && #[trigger] Self::opt_map(self->Table_1@[j2]).dom().contains(k) ==> j1 == j2,
    {
        let scheme = self->Table_0;
        let slots = self->Table_1@;
        assert forall|j1: int, j2: int, k: Seq<u8>|
            0 <= j1 < slots.len() && 0 <= j2 < slots.len() && #[trigger] Self::opt_map(
                slots[j1],
            ).dom().contains(k) && #[trigger] Self::opt_map(slots[j2]).dom().contains(k) implies j1
            == j2 by {
            assert(Self::slot_wf(slots[j1], scheme, slots.len() as nat, j1, align));
            assert(Self::slot_wf(slots[j2], scheme, slots.len() as nat, j2, align));
            let t1 = slots[j1]->Some_0;
            let t2 = slots[j2]->Some_0;
            assert(t1.as_map().dom().contains(k));
            assert(t2.as_map().dom().contains(k));
            assert(spec_hash(scheme.base(), k, align) as nat % (slots.len() as nat) == j1);
            assert(spec_hash(scheme.base(), k, align) as nat % (slots.len() as nat) == j2);
        }
    }

    /// In a well-formed table, a key is found only in the slot its hash
    /// selects.
    proof fn lemma_wf_key_slot(self, key: Seq<u8>, align: int)
        requires
            self is Table,
            self.wf(align),
        ensures
            forall|j: int|
                0 <= j < self->Table_1@.len() && j != spec_hash(self->Table_0.base(), key, align)
                    as nat % (self->Table_1@.len() as nat) ==> !Self::opt_map(
                    #[trigger] self->Table_1@[j],
                ).dom().contains(key),
    {
        let scheme = self->Table_0;
        let slots = self->Table_1@;
        let idx = spec_hash(scheme.base(), key, align) as nat % (slots.len() as nat);
        assert forall|j: int| 0 <= j < slots.len() && j != idx implies !Self::opt_map(
            #[trigger] slots[j],
        ).dom().contains(key) by {
            if Self::opt_map(slots[j]).dom().contains(key) {
                assert(Self::slot_wf(slots[j], scheme, slots.len() as nat, j, align));
                let t = slots[j]->Some_0;
                assert(t.as_map().dom().contains(key));
                assert(spec_hash(scheme.base(), key, align) as nat % (slots.len() as nat) == j);
            }
        }
    }

    /// A fresh table holding exactly one fresh item for `key`.
    fn table_with_item(scheme: HashScheme, slot_count: usize, key: &Vec<u8>, align: usize) -> (r:
        HashTree<T>)
        requires
            slot_count > 0,
            align == 1 || align == 8,
        ensures
            r is Table,
            r.wf(align as int),
            r.as_map().dom() =~= Set::<Seq<u8>>::empty().insert(key@),
    {
        let mut t: HashTree<T> = Self::new_table(scheme, slot_count);
        match &mut t {
            HashTree::Table(hasher, slots) => {
                let hashed = hasher.hash(key, align);
                let idx = (hashed % (slots.len() as u64)) as usize;
                let ghost s1 = slots@;
                let fresh = Box::new(HashTree::Item(crate::keys::clone_bytes(key), T::new(), None));
                let ghost fresh_v = *fresh;
                let slot_ref = &mut slots[idx];
                *slot_ref = Some(fresh);
                proof {
                    let s2 = slots@;
                    assert(s2[idx as int] is Some && *(s2[idx as int]->Some_0) == fresh_v);
                    assert(forall|j: int| 0 <= j < s2.len() && j != idx ==> s2[j] == s1[j]);
                    assert(Self::opt_map(s1[idx as int]) =~= Map::<Seq<u8>, T>::empty());
                    assert(fresh_v.as_map() =~= Map::<Seq<u8>, T>::empty().insert(
                        key@,
                        fresh_v->Item_1,
                    ));
                    assert(Self::opt_map(s2[idx as int]).dom() =~= Self::opt_map(
                        s1[idx as int],
                    ).dom().insert(key@));
                    assert(forall|j: int|
                        0 <= j < s1.len() ==> Self::opt_map(#[trigger] s1[j])
                            =~= Map::<Seq<u8>, T>::empty());
                    Self::lemma_slots_map_frame(s1, s2, idx as int, key@);
                    Self::lemma_slots_map_empty(s1);
                    assert(Self::slots_map(s2).dom() =~= Set::<Seq<u8>>::empty().insert(key@));
                    // well-formedness: the one item's key hashes to its slot
                    assert forall|j: int| 0 <= j < s2.len() implies Self::slot_wf(
                        #[trigger] s2[j],
                        scheme,
                        s2.len() as nat,
                        j,
                        align as int,
                    ) by {
                        if j == idx as int {
                            assert(fresh_v.chain_wf(align as int));
                            assert forall|k: Seq<u8>| fresh_v.as_map().dom().contains(k) implies #[trigger] spec_hash(
                                scheme.base(),
                                k,
                                align as int,
                            ) as nat % (s2.len() as nat) == j by {
                                assert(k == key@);
                            }
                        }
                    }
                }
            },
            HashTree::Item(_, _, _) => unreached(),
        }
        t
    }

    /// Makes sure `key` has an item in the tree, creating it (and the
    /// collision table it needs) when absent.  Entries of other keys, and
    /// the entry of `key` itself when present, are untouched.
    pub fn insert_bytes(&mut self, key: &Vec<u8>, align: usize, now: u64)
        requires
            align == 1 || align == 8,
            *old(self) is Table,
            old(self).wf(align as int),
        ensures
            *final(self) is Table,
            final(self).wf(align as int),
            final(self).as_map().dom() =~= old(self).as_map().dom().insert(key@),
            forall|k: Seq<u8>|
                k != key@ && old(self).as_map().dom().contains(k) ==> #[trigger] (final(
                self
                ).as_map()[k]) == old(self).as_map()[k],
            old(self).as_map().dom().contains(key@) ==> final(self).as_map() == old(self).as_map(),
        decreases *old(self),
    {
        proof {
            old(self).lemma_wf_localizes(align as int);
            old(self).lemma_wf_key_slot(key@, align as int);
        }
        match self {
            HashTree::Table(hasher, slots) => {
                let ghost scheme = *hasher;
                let ghost s1 = slots@;
                let hashed = hasher.hash(key, align);
                let len = slots.len();
                let idx = (hashed % (len as u64)) as usize;
                let evolved = hasher.evolve(now);
                proof {
                    assert(idx as nat == spec_hash(scheme.base(), key@, align as int) as nat % (
                    s1.len() as nat));
                }
                let slot_ref = &mut slots[idx];
                let taken = slot_ref.take();
                match taken {
                    None => {
                        let fresh = Box::new(
                            HashTree::Item(crate::keys::clone_bytes(key), T::new(), None),
                        );
                        let ghost fresh_v = *fresh;
                        *slot_ref = Some(fresh);
                        proof {
                            let s2 = slots@;
                            assert(s2[idx as int] is Some && *(s2[idx as int]->Some_0) == fresh_v);
                            assert(Self::opt_map(s1[idx as int]) =~= Map::<Seq<u8>, T>::empty());
                            assert(fresh_v.as_map() =~= Map::<Seq<u8>, T>::empty().insert(
                                key@,
                                fresh_v->Item_1,
                            ));
                            assert(Self::opt_map(s2[idx as int]).dom() =~= Self::opt_map(
                                s1[idx as int],
                            ).dom().insert(key@));
                            Self::lemma_slots_map_frame(s1, s2, idx as int, key@);
                            Self::lemma_wf_preserved(s1, s2, idx as int, key@, scheme, align as int);
                            assert(old(self).as_map() == Self::slots_map(s1));
                            if old(self).as_map().dom().contains(key@) {
                                let j = Self::lemma_slots_map_mem_inv(s1, key@);
                                assert(j == idx);
                                assert(false);
                            }
                        }
                    },
                    Some(chain_box) => {
                        proof {
                            assert(s1[idx as int] is Some && *(s1[idx as int]->Some_0) == *chain_box);
                            assert(Self::slot_wf(
                                s1[idx as int],
                                scheme,
                                s1.len() as nat,
                                idx as int,
                                align as int,
                            ));
                            assert(chain_box.chain_wf(align as int));
                            if *chain_box is Table {
                                assert(false);
                            }
                        }
                        let ghost old_chain = *chain_box;
                        let new_chain = Self::chain_ensure(chain_box, key, align, now, evolved, len);
                        let ghost new_chain_v = *new_chain;
                        *slot_ref = Some(new_chain);
                        proof {
                            let s2 = slots@;
                            assert(s2[idx as int] is Some && *(s2[idx as int]->Some_0) == new_chain_v);
                            assert(Self::opt_map(s1[idx as int]) == old_chain.as_map());
                            assert(Self::opt_map(s2[idx as int]) == new_chain_v.as_map());
                            assert(Self::opt_map(s2[idx as int]).dom() =~= Self::opt_map(
                                s1[idx as int],
                            ).dom().insert(key@));
                            assert forall|k: Seq<u8>|
                                k != key@ && Self::opt_map(s1[idx as int]).dom().contains(
                                    k,
                                ) implies #[trigger] (Self::opt_map(s2[idx as int])[k])
                                == Self::opt_map(s1[idx as int])[k] by {
                                assert(new_chain_v.as_map()[k] == old_chain.as_map()[k]);
                            }
                            Self::lemma_slots_map_frame(s1, s2, idx as int, key@);
                            if Self::opt_map(s1[idx as int]).dom().contains(key@) {
                                assert(new_chain_v.as_map() == old_chain.as_map());
                                Self::lemma_slots_map_get(s1, idx as int, key@);
                                assert(Self::slots_map(s2) =~= Self::slots_map(s1));
                                assert(Self::slots_map(s2) == Self::slots_map(s1));
                            }
                            assert(old(self).as_map() == Self::slots_map(s1));
                            if old(self).as_map().dom().contains(key@) {
                                let j = Self::lemma_slots_map_mem_inv(s1, key@);
                                assert(j == idx);
                                assert(Self::opt_map(s1[idx as int]).dom().contains(key@));
                            }
                            Self::lemma_wf_preserved(s1, s2, idx as int, key@, scheme, align as int);
                        }
                    },
                }
            },
            HashTree::Item(_, _, _) => unreached(),
        }
    }

    /// Well-formedness carries over to a table whose one changed slot
    /// gained only `key`, when `key` hashes to that slot.
    proof fn lemma_wf_preserved(
        s1: Seq<Option<Box<HashTree<T>>>>,
        s2: Seq<Option<Box<HashTree<T>>>>,
        i: int,
        key: Seq<u8>,
        scheme: HashScheme,
        align: int,
    )
        requires
            0 <= i < s1.len(),
            s2.len() == s1.len(),
            forall|j: int| 0 <= j < s1.len() && j != i ==> s2[j] == s1[j],
            forall|j: int|
                0 <= j < s1.len() ==> Self::slot_wf(#[trigger] s1[j], scheme, s1.len() as nat, j, align),
            Self::opt_map(s2[i]).dom() <= Self::opt_map(s1[i]).dom().insert(key),
            spec_hash(scheme.base(), key, align) as nat % (s1.len() as nat) == i,
            s2[i] is Some,
            s2[i]->Some_0.chain_wf(align),
        ensures
            forall|j: int|
                0 <= j < s2.len() ==> Self::slot_wf(#[trigger] s2[j], scheme, s2.len() as nat, j, align),
    {
        assert forall|j: int| 0 <= j < s2.len() implies Self::slot_wf(
            #[trigger] s2[j],
            scheme,
            s2.len() as nat,
            j,
            align,
        ) by {
            assert(Self::slot_wf(s1[j], scheme, s1.len() as nat, j, align));
            if j == i {
                let t = s2[i]->Some_0;
                assert forall|k: Seq<u8>| t.as_map().dom().contains(k) implies #[trigger] spec_hash(
                    scheme.base(),
                    k,
                    align,
                ) as nat % (s2.len() as nat) == j by {
                    assert(Self::opt_map(s2[i]).dom().contains(k));
                    if k != key {
                        assert(Self::opt_map(s1[i]).dom().contains(k));
                        let t1 = s1[i]->Some_0;
                        assert(t1.as_map().dom().contains(k));
                    }
                }
            } else {
                assert(s2[j] == s1[j]);
            }
        }
    }

    /// `insert_bytes` on one item chain, owned: returns the chain with
    /// `key` present, growing a next-generation table when the head key
    /// collides with `key`.
    fn chain_ensure(
        chain: Box<HashTree<T>>,
        key: &Vec<u8>,
        align: usize,
        now: u64,
        fresh_scheme: HashScheme,
        slot_count: usize,
    ) -> (r: Box<HashTree<T>>)
        requires
            align == 1 || align == 8,
            *chain is Item,
            chain.chain_wf(align as int),
            slot_count > 0,
        ensures
            *r is Item,
            r.chain_wf(align as int),
            r.as_map().dom() =~= chain.as_map().dom().insert(key@),
            forall|k: Seq<u8>|
                k != key@ && chain.as_map().dom().contains(k) ==> #[trigger] (r.as_map()[k])
                    == chain.as_map()[k],
            chain.as_map().dom().contains(key@) ==> r.as_map() == chain.as_map(),
        decreases *chain,
    {
        let c = *chain;
        match c {
            HashTree::Item(k0, v0, ov) => {
                if compare_aligned(&k0, key, align) {
                    let r = Box::new(HashTree::Item(k0, v0, ov));
                    proof {
                        assert(*r == *chain);
                        assert(chain.as_map().dom().contains(key@));
                        assert(r.as_map().dom() =~= chain.as_map().dom().insert(key@));
                    }
                    r
                } else {
                    match ov {
                        Some(sub) => {
                            proof {
                                if *sub is Item {
                                    assert(false);
                                }
                            }
                            let ghost old_sub = *sub;
                            let mut sub_tbl = sub;
                            (&mut *sub_tbl).insert_bytes(key, align, now);
                            let ghost new_sub = *sub_tbl;
                            let r = Box::new(HashTree::Item(k0, v0, Some(sub_tbl)));
                            proof {
                                assert(chain.as_map() == old_sub.as_map().insert(k0@, v0));
                                assert(r.as_map() == new_sub.as_map().insert(k0@, v0));
                                assert(r.as_map().dom() =~= chain.as_map().dom().insert(key@));
                                assert forall|k: Seq<u8>|
                                    k != key@ && chain.as_map().dom().contains(k) implies #[trigger] (
                                r.as_map()[k]) == chain.as_map()[k] by {
                                    if k != k0@ {
                                        assert(old_sub.as_map().dom().contains(k));
                                        assert(new_sub.as_map()[k] == old_sub.as_map()[k]);
                                    }
                                }
                                if chain.as_map().dom().contains(key@) {
                                    assert(old_sub.as_map().dom().contains(key@));
                                    assert(new_sub.as_map() == old_sub.as_map());
                                }
                            }
                            r
                        },
                        None => {
                            let t = Self::table_with_item(fresh_scheme, slot_count, key, align);
                            let r = Box::new(HashTree::Item(k0, v0, Some(Box::new(t))));
                            proof {
                                assert(chain.as_map() =~= Map::<Seq<u8>, T>::empty().insert(
                                    k0@,
                                    v0,
                                ));
                                assert(r.as_map() == t.as_map().insert(k0@, v0));
                                assert(r.as_map().dom() =~= chain.as_map().dom().insert(key@));
                                assert(!chain.as_map().dom().contains(key@));
                            }
                            r
                        },
                    }
                }
            },
            HashTree::Table(_, _) => unreached(),
        }
    }

    /// Exchanges the value stored for `key` with `new_val`, returning the
    /// previous value, or returns `None` (installing nothing) when the key
    /// is absent.
    pub fn swap_value(&mut self, key: &Vec<u8>, align: usize, new_val: T) -> (r: Option<T>)
        requires
            align == 1 || align == 8,
            *old(self) is Table,
            old(self).wf(align as int),
        ensures
            *final(self) is Table,
            final(self).wf(align as int),
            match r {
                Some(v) => old(self).as_map().dom().contains(key@) && v == old(self).as_map()[key@]
                    && final(self).as_map() =~= old(self).as_map().insert(key@, new_val),
                None => !old(self).as_map().dom().contains(key@) && final(self).as_map() == old(
                    self,
                ).as_map(),
            },
        decreases *old(self),
    {
        proof {
            old(self).lemma_wf_localizes(align as int);
            old(self).lemma_wf_key_slot(key@, align as int);
        }
        match self {
            HashTree::Table(hasher, slots) => {
                let ghost scheme = *hasher;
                let ghost s1 = slots@;
                let hashed = hasher.hash(key, align);
                let len = slots.len();
                let idx = (hashed % (len as u64)) as usize;
                proof {
                    assert(idx as nat == spec_hash(scheme.base(), key@, align as int) as nat % (
                    s1.len() as nat));
                }
                let slot_ref = &mut slots[idx];
                let taken = slot_ref.take();
                match taken {
                    None => {
                        proof {
                            let s2 = slots@;
                            assert(s2 =~= s1);
                            assert(old(self).as_map() == Self::slots_map(s1));
                            if Self::slots_map(s1).dom().contains(key@) {
                                let j = Self::lemma_slots_map_mem_inv(s1, key@);
                                assert(j == idx);
                                assert(false);
                            }
                        }
                        None
                    },
                    Some(chain_box) => {
                        proof {
                            assert(s1[idx as int] is Some && *(s1[idx as int]->Some_0)
                                == *chain_box);
                            assert(Self::slot_wf(
                                s1[idx as int],
                                scheme,
                                s1.len() as nat,
                                idx as int,
                                align as int,
                            ));
                            assert(chain_box.chain_wf(align as int));
                            if *chain_box is Table {
                                assert(false);
                            }
                        }
                        let ghost old_chain = *chain_box;
                        let (new_chain, res) = Self::chain_swap(chain_box, key, align, new_val);
                        let ghost new_chain_v = *new_chain;
                        *slot_ref = Some(new_chain);
                        proof {
                            let s2 = slots@;
                            assert(s2[idx as int] is Some && *(s2[idx as int]->Some_0)
                                == new_chain_v);
                            assert(Self::opt_map(s1[idx as int]) == old_chain.as_map());
                            assert(Self::opt_map(s2[idx as int]) == new_chain_v.as_map());
                            assert(old(self).as_map() == Self::slots_map(s1));
                            if res is Some {
                                assert(Self::opt_map(s2[idx as int]).dom() =~= Self::opt_map(
                                    s1[idx as int],
                                ).dom().insert(key@));
                                assert forall|k: Seq<u8>|
                                    k != key@ && Self::opt_map(s1[idx as int]).dom().contains(
                                        k,
                                    ) implies #[trigger] (Self::opt_map(s2[idx as int])[k])
                                    == Self::opt_map(s1[idx as int])[k] by {
                                    assert(new_chain_v.as_map()[k] == old_chain.as_map()[k]);
                                }
                                Self::lemma_slots_map_frame(s1, s2, idx as int, key@);
                                Self::lemma_slots_map_get(s1, idx as int, key@);
                                Self::lemma_wf_preserved(
                                    s1,
                                    s2,
                                    idx as int,
                                    key@,
                                    scheme,
                                    align as int,
                                );
                            } else {
                                assert(new_chain_v.as_map() == old_chain.as_map());
                                assert(s2 =~= s1.update(idx as int, s2[idx as int]));
                                assert(Self::opt_map(s2[idx as int]).dom() =~= Self::opt_map(
                                    s1[idx as int],
                                ).dom().insert(key@).remove(key@).union(Self::opt_map(
                                    s1[idx as int],
                                ).dom())) by {
                                    assert(Self::opt_map(s2[idx as int]).dom() =~= Self::opt_map(
                                        s1[idx as int],
                                    ).dom());
                                }
                                assert(Self::opt_map(s2[idx as int]).dom() <= Self::opt_map(
                                    s1[idx as int],
                                ).dom().insert(key@));
                                assert forall|k: Seq<u8>|
                                    k != key@ && Self::opt_map(s1[idx as int]).dom().contains(
                                        k,
                                    ) implies #[trigger] (Self::opt_map(s2[idx as int])[k])
                                    == Self::opt_map(s1[idx as int])[k] by {
                                    assert(new_chain_v.as_map()[k] == old_chain.as_map()[k]);
                                }
                                assert(!old_chain.as_map().dom().contains(key@));
                                if Self::slots_map(s1).dom().contains(key@) {
                                    let j = Self::lemma_slots_map_mem_inv(s1, key@);
                                    assert(j == idx);
                                    assert(false);
                                }
                                assert forall|k: Seq<u8>|
                                    Self::opt_map(s2[idx as int]).dom().contains(k)
                                        implies #[trigger] (Self::opt_map(s2[idx as int])[k])
                                    == Self::opt_map(s1[idx as int])[k] by {
                                    assert(new_chain_v.as_map()[k] == old_chain.as_map()[k]);
                                }
                                Self::lemma_slots_map_same(s1, s2, idx as int);
                                Self::lemma_wf_preserved(
                                    s1,
                                    s2,
                                    idx as int,
                                    key@,
                                    scheme,
                                    align as int,
                                );
                            }
                        }
                        res
                    },
                }
            },
            HashTree::Item(_, _, _) => unreached(),
        }
    }

    /// Replacing one slot's chain with a map-equal chain leaves the union
    /// of the slots' maps unchanged.
    proof fn lemma_slots_map_same(
        s1: Seq<Option<Box<HashTree<T>>>>,
        s2: Seq<Option<Box<HashTree<T>>>>,
        i: int,
    )
        requires
            0 <= i < s1.len(),
            s2.len() == s1.len(),
            forall|j: int| 0 <= j < s1.len() && j != i ==> s2[j] == s1[j],
            Self::opt_map(s2[i]) == Self::opt_map(s1[i]),
        ensures
            Self::slots_map(s2) == Self::slots_map(s1),
        decreases s1.len(),
    {
        let rest1 = s1.subrange(1, s1.len() as int);
        let rest2 = s2.subrange(1, s2.len() as int);
        if i == 0 {
            assert(rest2 =~= rest1);
        } else {
            assert(s2[0] == s1[0]);
            assert(forall|j: int| 0 <= j < rest1.len() && j != i - 1 ==> rest2[j] == rest1[j]);
            assert(rest1[i - 1] == s1[i] && rest2[i - 1] == s2[i]);
            Self::lemma_slots_map_same(rest1, rest2, i - 1);
        }
    }

    /// `swap_value` on one item chain, owned: returns the rebuilt chain
    /// and the value previously stored for `key`, if any.
    fn chain_swap(chain: Box<HashTree<T>>, key: &Vec<u8>, align: usize, new_val: T) -> (rp: (
        Box<HashTree<T>>,
        Option<T>,
    ))
        requires
            align == 1 || align == 8,
            *chain is Item,
            chain.chain_wf(align as int),
        ensures
            *rp.0 is Item,
            rp.0.chain_wf(align as int),
            match rp.1 {
                Some(v) => chain.as_map().dom().contains(key@) && v == chain.as_map()[key@]
                    && rp.0.as_map() =~= chain.as_map().insert(key@, new_val),
                None => !chain.as_map().dom().contains(key@) && rp.0.as_map() == chain.as_map(),
            },
        decreases *chain,
    {
        let c = *chain;
        match c {
            HashTree::Item(k0, v0, ov) => {
                if compare_aligned(&k0, key, align) {
                    let r = Box::new(HashTree::Item(k0, new_val, ov));
                    proof {
                        assert(chain.as_map()[key@] == v0);
                        assert(r.as_map() =~= chain.as_map().insert(key@, new_val));
                    }
                    (r, Some(v0))
                } else {
                    match ov {
                        Some(sub) => {
                            proof {
                                if *sub is Item {
                                    assert(false);
                                }
                            }
                            let ghost old_sub = *sub;
                            let mut sub_tbl = sub;
                            let res = (&mut *sub_tbl).swap_value(key, align, new_val);
                            let ghost new_sub = *sub_tbl;
                            let r = Box::new(HashTree::Item(k0, v0, Some(sub_tbl)));
                            proof {
                                assert(chain.as_map() == old_sub.as_map().insert(k0@, v0));
                                assert(r.as_map() == new_sub.as_map().insert(k0@, v0));
                                if res is Some {
                                    assert(r.as_map() =~= chain.as_map().insert(key@, new_val));
                                }
                            }
                            (r, res)
                        },
                        None => {
                            let r = Box::new(HashTree::Item(k0, v0, None));
                            proof {
                                assert(*r == *chain);
                            }
                            (r, None)
                        },
                    }
                }
            },
            HashTree::Table(_, _) => unreached(),
        }
    }

    /// Every value in the union of the slots' maps comes from some slot.
    proof fn lemma_slots_map_val_origin(s: Seq<Option<Box<HashTree<T>>>>, k: Seq<u8>) -> (j: int)
        requires
            Self::slots_map(s).dom().contains(k),
        ensures
            0 <= j < s.len(),
            Self::opt_map(s[j]).dom().contains(k),
            Self::slots_map(s)[k] == Self::opt_map(s[j])[k],
        decreases s.len(),
    {
        let rest = s.subrange(1, s.len() as int);
        if Self::slots_map(rest).dom().contains(k) {
            let j = Self::lemma_slots_map_val_origin(rest, k) + 1;
            assert(rest[j - 1] == s[j]);
            j
        } else {
            0
        }
    }

    /// Every value a tree's map holds is structurally below the tree, so
    /// specifications may recurse through the map.
    pub proof fn lemma_as_map_smaller(t: HashTree<T>, k: Seq<u8>)
        requires
            t.as_map().dom().contains(k),
        ensures
            decreases_to!(t => t.as_map()[k]),
        decreases t,
    {
        match t {
            HashTree::Item(k0, v, ov) => {
                if k == k0@ {
                    assert(t.as_map()[k] == v);
                    assert(decreases_to!(t => v));
                } else {
                    let inner = *ov->Some_0;
                    assert(t.as_map()[k] == inner.as_map()[k]);
                    assert(decreases_to!(t => inner));
                    Self::lemma_as_map_smaller(inner, k);
                }
            },
            HashTree::Table(_, slots) => {
                let s = slots@;
                let j = Self::lemma_slots_map_val_origin(s, k);
                let chain = *s[j]->Some_0;
                assert(decreases_to!(slots => s));
                assert(decreases_to!(s => *s[j]->Some_0));
                assert(decreases_to!(t => chain));
                Self::lemma_as_map_smaller(chain, k);
            },
        }
    }

    /// Inserts a string key byte-aligned.
    pub fn insert_string(&mut self, key: &str, now: u64)
        requires
            *old(self) is Table,
            old(self).wf(1),
        ensures
            *final(self) is Table,
            final(self).wf(1),
            final(self).as_map().dom() =~= old(self).as_map().dom().insert(key.spec_bytes()),
            forall|k: Seq<u8>|
                k != key.spec_bytes() && old(self).as_map().dom().contains(k) ==> #[trigger] (
                final(self).as_map()[k]) == old(self).as_map()[k],
            old(self).as_map().dom().contains(key.spec_bytes()) ==> final(self).as_map() == old(
                self,
            ).as_map(),
    {
        let kb = key.as_bytes();
        let kv = vstd::slice::slice_to_vec(kb);
        self.insert_bytes(&kv, 1, now)
    }

    /// Looks up a string key byte-aligned.
    pub fn find_string(&self, key: &str) -> (r: Option<&T>)
        requires
            *self is Table,
            self.wf(1),
        ensures
            ({
                let kb = key.spec_bytes();
                match r {
                    Some(v) => self.as_map().dom().contains(kb) && *v == self.as_map()[kb],
                    None => !self.as_map().dom().contains(kb),
                }
            }),
    {
        let kb = key.as_bytes();
        let kv = vstd::slice::slice_to_vec(kb);
        self.find_bytes(&kv, 1)
    }
}

} // verus!
