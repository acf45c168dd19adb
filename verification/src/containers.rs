//! The container tree the protocol navigates: a leaf value, or a hash
//! trie of shared slots each holding another container.

use vstd::prelude::*;
use crate::values::Value;
use crate::hashtree::HashTree;
use crate::hashtree::HashScheme;
use crate::shared::Shared;
use crate::shared::TimePtr;
use crate::shared::write_post;
use crate::errors::FlotonErr;
use crate::constants::VBIN_CMAP_BEGIN;
use crate::constants::VBIN_CMAP_END;
use crate::constants::CMAPB_KEY;
use crate::fast_output::spec_le_bytes_u64;
use crate::fast_output::spec_le_u64_at;
use crate::fast_output::push_u64_le;
use crate::fast_output::read_u64_le;
use crate::errors::append_bytes;
use crate::keys::bytes_range;
use crate::traits::InPutOutPut;

verus! {

/// A node of the store's tree: a scalar leaf, or a map whose entries are
/// shared slots holding further containers.
#[derive(Debug)]
pub enum Container {
    Val(Value),
    CMap(Box<HashTree<Shared<Container>>>),
}

/// Container maps hash their keys word-aligned.
pub const MAP_KEY_ALIGN: usize = 8;

/// The mathematical shape of a container.
pub enum ContView {
    ValV(Value),
    MapV(Map<Seq<u8>, ContView>),
}

impl Container {
    /// The slots of a map container, by key.
    pub open spec fn entries(self) -> Map<Seq<u8>, Shared<Container>> {
        (*self->CMap_0).as_map()
    }

    /// A well-formed map container: a table tree, well-formed under the
    /// word alignment.
    pub open spec fn map_wf(self) -> bool {
        self is CMap && (*self->CMap_0) is Table && (*self->CMap_0).wf(MAP_KEY_ALIGN as int)
    }

    /// The container currently held in this map's slot for `k`, if the
    /// slot exists and holds one.
    pub open spec fn entry_val(self, k: Seq<u8>) -> Option<Container> {
        if self.entries().dom().contains(k) && self.entries()[k].current() is Some {
            Some(self.entries()[k].current()->Some_0.0)
        } else {
            None
        }
    }

    /// Deep well-formedness: every map in the tree, at every depth, is a
    /// well-formed table.
    pub open spec fn deep_wf(self) -> bool
        decreases self,
        via Self::deep_wf_decreases
    {
        match self {
            Container::Val(_) => true,
            Container::CMap(tb) => {
                &&& (*tb) is Table
                &&& (*tb).wf(MAP_KEY_ALIGN as int)
                &&& forall|k: Seq<u8>|
                    #[trigger] (*tb).as_map().dom().contains(k) ==> match (*tb).as_map()[k].cur {
                        Some(tp) => tp.0.deep_wf(),
                        None => true,
                    }
            },
        }
    }

    #[via_fn]
    proof fn deep_wf_decreases(self) {
        match self {
            Container::CMap(tb) => {
                assert forall|k: Seq<u8>| (*tb).as_map().dom().contains(k) implies ({
                    let sh = (*tb).as_map()[k];
                    match sh.cur {
                        Some(tp) => decreases_to!(self => tp.0),
                        None => true,
                    }
                }) by {
                    HashTree::<Shared<Container>>::lemma_as_map_smaller(*tb, k);
                    let sh = (*tb).as_map()[k];
                    assert(decreases_to!(self => *tb));
                    assert(decreases_to!(*tb => sh));
                    match sh.cur {
                        Some(tp) => {
                            assert(decreases_to!(sh => tp.0));
                        },
                        None => (),
                    }
                }
            },
            Container::Val(_) => (),
        }
    }

    /// The mathematical shape of a container: a leaf value, or a map
    /// from key bytes to the shapes of the containers its occupied slots
    /// hold.
    pub open spec fn model(self) -> ContView
        decreases self,
        via Self::model_decreases
    {
        match self {
            Container::Val(v) => ContView::ValV(v),
            Container::CMap(tb) => ContView::MapV(
                Map::new(
                    |k: Seq<u8>|
                        (*tb).as_map().dom().contains(k) && (*tb).as_map()[k].cur is Some,
                    |k: Seq<u8>|
                        if (*tb).as_map().dom().contains(k) && (*tb).as_map()[k].cur is Some {
                            ((*tb).as_map()[k].cur->Some_0.0).model()
                        } else {
                            ContView::ValV(Value::Nothing)
                        },
                ),
            ),
        }
    }

    #[via_fn]
    proof fn model_decreases(self) {
        match self {
            Container::CMap(tb) => {
                assert forall|k: Seq<u8>|
                    (*tb).as_map().dom().contains(k) && (*tb).as_map()[k].cur is Some implies ({
                    let sh = (*tb).as_map()[k];
                    decreases_to!(self => sh.cur->Some_0.0)
                }) by {
                    HashTree::<Shared<Container>>::lemma_as_map_smaller(*tb, k);
                    let sh = (*tb).as_map()[k];
                    assert(decreases_to!(self => *tb));
                    assert(decreases_to!(*tb => sh));
                    assert(decreases_to!(sh => sh.cur->Some_0.0));
                }
            },
            Container::Val(_) => (),
        }
    }

    /// A fresh map with `size` slots: a table of exactly `size` empty
    /// slots under the default hash scheme.
    pub fn new_map(size: usize) -> (r: Container)
        ensures
            r is CMap,
            (*r->CMap_0) is Table,
            (*r->CMap_0)->Table_0.base() == crate::hashtree::DEFAULT_HASH_BASE,
            (*r->CMap_0)->Table_1@.len() == size,
            forall|j: int| 0 <= j < size ==> (#[trigger] (*r->CMap_0)->Table_1@[j]) is None,
            r.entries() =~= Map::<Seq<u8>, Shared<Container>>::empty(),
            size > 0 ==> r.map_wf() && r.deep_wf(),
    {
        Container::CMap(Box::new(HashTree::new_table(HashScheme::default(), size)))
    }

    /// The leaf value, or the map-begin tag when this container is a map
    /// (used to detect an atomic operation aimed at a map).
    pub fn value(&self) -> (r: Result<&Value, u8>)
        ensures
            match r {
                Ok(v) => *self is Val && *v == self->Val_0,
                Err(b) => *self is CMap && b == VBIN_CMAP_BEGIN,
            },
    {
        match self {
            Container::Val(v) => Ok(v),
            Container::CMap(_) => Err(VBIN_CMAP_BEGIN),
        }
    }

    /// Installs `val` at `key`: the slot is created when absent, and the
    /// displaced container, if any, is retired onto `tid`'s free list of
    /// that slot.
    pub fn set_map(&mut self, key: &Vec<u8>, val: Container, tid: usize, now: u64)
        requires
            old(self).map_wf(),
            old(self).deep_wf(),
            val.deep_wf(),
            tid < usize::MAX,
        ensures
            final(self).map_wf(),
            final(self).deep_wf(),
            final(self).entries().dom() =~= old(self).entries().dom().insert(key@),
            forall|k: Seq<u8>|
                k != key@ && old(self).entries().dom().contains(k) ==> #[trigger] (final(
                self
                ).entries()[k]) == old(self).entries()[k],
            final(self).entries()[key@].current() == Some(TimePtr(val, now)),
            old(self).entries().dom().contains(key@) ==> write_post(
                old(self).entries()[key@],
                final(self).entries()[key@],
                TimePtr(val, now),
                tid as int,
            ),
            !old(self).entries().dom().contains(key@) ==> (final(
            self
            ).entries()[key@]).keeps().len() == 0,
    {
        match self {
            Container::CMap(mb) => {
                let m: &mut HashTree<Shared<Container>> = &mut **mb;
                let present = m.find_bytes(key, MAP_KEY_ALIGN).is_some();
                if present {
                    let mut sh = match m.swap_value(key, MAP_KEY_ALIGN, Shared::new()) {
                        Some(s) => s,
                        None => unreached(),
                    };
                    sh.write(TimePtr::make(val, now), tid);
                    let back = m.swap_value(key, MAP_KEY_ALIGN, sh);
                    proof {
                        assert(back is Some);
                    }
                } else {
                    m.insert_bytes(key, MAP_KEY_ALIGN, now);
                    let sh = Shared::new_val(val, now);
                    let back = m.swap_value(key, MAP_KEY_ALIGN, sh);
                    proof {
                        assert(back is Some);
                    }
                }
            },
            Container::Val(_) => unreached(),
        }
        proof {
            assert forall|k: Seq<u8>| #[trigger] final(self).entries().dom().contains(
                k,
            ) implies match final(self).entries()[k].cur {
                Some(tp) => tp.0.deep_wf(),
                None => true,
            } by {
                if k != key@ {
                    assert(old(self).entries().dom().contains(k));
                    assert(final(self).entries()[k] == old(self).entries()[k]);
                }
            }
        }
    }

    /// Locates or creates the slot at `key` and makes sure it holds a
    /// map: an existing map wins and is returned; anything else is
    /// replaced by a fresh map with `slots_size` slots.
    pub fn create_set_map(&mut self, key: &Vec<u8>, slots_size: usize, tid: usize, now: u64) -> (r:
        &Container)
        requires
            old(self).map_wf(),
            old(self).deep_wf(),
            tid < usize::MAX,
            slots_size > 0,
        ensures
            final(self).map_wf(),
            final(self).deep_wf(),
            final(self).entries().dom() =~= old(self).entries().dom().insert(key@),
            forall|k: Seq<u8>|
                k != key@ && old(self).entries().dom().contains(k) ==> #[trigger] (final(
                self
                ).entries()[k]) == old(self).entries()[k],
            final(self).entry_val(key@) is Some,
            *r == final(self).entry_val(key@)->Some_0,
            *r is CMap,
            r.map_wf(),
            r.deep_wf(),
            (old(self).entry_val(key@) matches Some(c) && c is CMap) ==> (*final(self) == *old(
                self,
            ) && *r == old(self).entry_val(key@)->Some_0),
            !(old(self).entry_val(key@) matches Some(c) && c is CMap) ==> ({
                let slot = final(self).entries()[key@];
                let m = slot.current()->Some_0.0;
                &&& slot.current()->Some_0.1 == now
                &&& m is CMap
                &&& (*m->CMap_0) is Table
                &&& (*m->CMap_0)->Table_0.base() == crate::hashtree::DEFAULT_HASH_BASE
                &&& (*m->CMap_0)->Table_1@.len() == slots_size
                &&& (*m->CMap_0).as_map() =~= Map::<Seq<u8>, Shared<Container>>::empty()
            }),
    {
        let ghost old_self = *old(self);
        let already = match self {
            Container::CMap(mb) => {
                let m: &HashTree<Shared<Container>> = &**mb;
                match m.find_bytes(key, MAP_KEY_ALIGN) {
                    Some(sh) => {
                        match sh.current_ref() {
                            Some(tp) => {
                                let is_map = match &tp.0 {
                                    Container::CMap(_) => true,
                                    Container::Val(_) => false,
                                };
                                proof {
                                    if is_map {
                                        assert(old_self.entry_val(key@) matches Some(c) && c
                                            is CMap);
                                    }
                                }
                                is_map
                            },
                            None => false,
                        }
                    },
                    None => false,
                }
            },
            Container::Val(_) => unreached(),
        };
        if !already {
            self.set_map(key, Container::new_map(slots_size), tid, now);
        }
        proof {
            assert(self.deep_wf());
            assert(self.entries().dom().contains(key@));
        }
        match &*self {
            Container::CMap(mb) => {
                let m: &HashTree<Shared<Container>> = &**mb;
                match m.find_bytes(key, MAP_KEY_ALIGN) {
                    Some(sh) => {
                        match sh.current_ref() {
                            Some(tp) => {
                                proof {
                                    assert(self.entries()[key@].cur == Some(*tp));
                                    assert(match self.entries()[key@].cur {
                                        Some(t2) => t2.0.deep_wf(),
                                        None => true,
                                    });
                                    assert(tp.0.deep_wf());
                                }
                                &tp.0
                            },
                            None => unreached(),
                        }
                    },
                    None => unreached(),
                }
            },
            Container::Val(_) => unreached(),
        }
    }

    /// The wire form of a container: a leaf value's wire form, or a
    /// streamed map between begin and end tags.
    pub open spec fn spec_wire(self) -> Seq<u8>
        decreases self, 2int,
    {
        match self {
            Container::Val(v) => v.spec_wire(),
            Container::CMap(tb) => seq![VBIN_CMAP_BEGIN] + Self::spec_tree_wire(*tb) + seq![
                VBIN_CMAP_END
            ],
        }
    }

    /// The streamed entries of one tree: slot by slot, each occupied item
    /// as a key marker, key length, key bytes and the held container, in
    /// chain order.
    pub open spec fn spec_tree_wire(t: HashTree<Shared<Container>>) -> Seq<u8>
        decreases t, 1int,
    {
        match t {
            HashTree::Table(_, slots) => Self::spec_slots_wire(slots@),
            HashTree::Item(k, sh, ov) => (match sh.cur {
                Some(tp) => seq![CMAPB_KEY] + spec_le_bytes_u64(k@.len() as u64) + k@
                    + tp.0.spec_wire(),
                None => Seq::<u8>::empty(),
            }) + (match ov {
                Some(b) => Self::spec_tree_wire(*b),
                None => Seq::<u8>::empty(),
            }),
        }
    }

    /// The streamed entries of a table's slots, front to back.
    pub open spec fn spec_slots_wire(s: Seq<Option<Box<HashTree<Shared<Container>>>>>) -> Seq<u8>
        decreases s, 0int,
    {
        if s.len() == 0 {
            Seq::<u8>::empty()
        } else {
            (match s[0] {
                Some(b) => Self::spec_tree_wire(*b),
                None => Seq::<u8>::empty(),
            }) + Self::spec_slots_wire(s.subrange(1, s.len() as int))
        }
    }

    /// Appends the wire form of this container to `output`.
    pub fn output_binary(&self, output: &mut Vec<u8>)
        ensures
            final(output)@ == old(output)@ + self.spec_wire(),
        decreases *self,
    {
        match self {
            Container::Val(v) => v.output_binary(output),
            Container::CMap(tb) => {
                output.push(VBIN_CMAP_BEGIN);
                Self::tree_output(&**tb, output);
                output.push(VBIN_CMAP_END);
                proof {
                    assert(output@ =~= old(output)@ + self.spec_wire());
                }
            },
        }
    }

    /// Streams one tree's occupied entries into `output`.
    #[verifier::loop_isolation(false)]
    fn tree_output(t: &HashTree<Shared<Container>>, output: &mut Vec<u8>)
        ensures
            final(output)@ == old(output)@ + Self::spec_tree_wire(*t),
        decreases *t,
    {
        match t {
            HashTree::Table(_, slots) => {
                let len = slots.len();
                let mut i: usize = 0;
                proof {
                    assert(slots@.subrange(0, 0) =~= Seq::<
                        Option<Box<HashTree<Shared<Container>>>>,
                    >::empty());
                }
                while i < len
                    invariant
                        i <= len,
                        len == slots@.len(),
                        output@ == old(output)@ + Self::spec_slots_wire(
                            slots@.subrange(0, i as int),
                        ),
                    decreases len - i,
                {
                    proof {
                        Self::lemma_slots_wire_snoc(slots@, i as int);
                    }
                    match &slots[i] {
                        Some(b) => {
                            Self::tree_output(&**b, output);
                        },
                        None => (),
                    }
                    i += 1;
                    proof {
                        assert(output@ =~= old(output)@ + Self::spec_slots_wire(
                            slots@.subrange(0, i as int),
                        ));
                    }
                }
                proof {
                    assert(slots@.subrange(0, len as int) =~= slots@);
                    assert(output@ =~= old(output)@ + Self::spec_tree_wire(*t));
                }
            },
            HashTree::Item(k, sh, ov) => {
                match sh.current_ref() {
                    Some(tp) => {
                        output.push(CMAPB_KEY);
                        push_u64_le(output, k.len() as u64);
                        append_bytes(output, k);
                        tp.0.output_binary(output);
                    },
                    None => (),
                }
                match ov {
                    Some(b) => {
                        Self::tree_output(&**b, output);
                    },
                    None => (),
                }
                proof {
                    assert(output@ =~= old(output)@ + Self::spec_tree_wire(*t));
                }
            },
        }
    }

    /// Streaming a prefix one slot longer appends that slot's entries.
    proof fn lemma_slots_wire_snoc(s: Seq<Option<Box<HashTree<Shared<Container>>>>>, i: int)
        requires
            0 <= i < s.len(),
        ensures
            Self::spec_slots_wire(s.subrange(0, i + 1)) == Self::spec_slots_wire(s.subrange(0, i))
                + (match s[i] {
                Some(b) => Self::spec_tree_wire(*b),
                None => Seq::<u8>::empty(),
            }),
        decreases i,
    {
        let a = s.subrange(0, i);
        let b = s.subrange(0, i + 1);
        if i == 0 {
            assert(a =~= Seq::<Option<Box<HashTree<Shared<Container>>>>>::empty());
            assert(b.subrange(1, 1) =~= Seq::<Option<Box<HashTree<Shared<Container>>>>>::empty());
            assert(Self::spec_slots_wire(b.subrange(1, 1)) =~= Seq::<u8>::empty());
            assert(b[0] == s[0]);
            assert(Self::spec_slots_wire(b) =~= (match s[0] {
                Some(bx) => Self::spec_tree_wire(*bx),
                None => Seq::<u8>::empty(),
            }));
        } else {
            let t = s.subrange(1, s.len() as int);
            assert(a[0] == s[0] && b[0] == s[0]);
            assert(a.subrange(1, a.len() as int) =~= t.subrange(0, i - 1));
            assert(b.subrange(1, b.len() as int) =~= t.subrange(0, i));
            Self::lemma_slots_wire_snoc(t, i - 1);
            assert(t[i - 1] == s[i]);
        }
    }

    /// What parsing a container at offset `i` of `s` yields: the shape
    /// parsed and the offset after it.  A read past the end of the buffer
    /// reports an unexpected byte of 0.
    pub open spec fn spec_cont_input(s: Seq<u8>, i: int) -> (Result<ContView, FlotonErr>, int)
        decreases s.len() - i, 1int,
    {
        if i < 0 || i >= s.len() {
            (Err(FlotonErr::UnexpectedByte(0)), i)
        } else if s[i] == VBIN_CMAP_BEGIN {
            Self::spec_entries_input(s, i + 1, Map::empty())
        } else {
            let (r, p) = Value::spec_input(s, i);
            (
                match r {
                    Ok(v) => Ok(ContView::ValV(v)),
                    Err(e) => Err(e),
                },
                p,
            )
        }
    }

    /// Parses streamed map entries from offset `i` on, accumulating them
    /// into `acc` until the end tag.
    pub open spec fn spec_entries_input(
        s: Seq<u8>,
        i: int,
        acc: Map<Seq<u8>, ContView>,
    ) -> (Result<ContView, FlotonErr>, int)
        decreases s.len() - i, 0int,
    {
        if i < 0 || i >= s.len() {
            (Err(FlotonErr::UnexpectedByte(0)), i)
        } else if s[i] == VBIN_CMAP_END {
            (Ok(ContView::MapV(acc)), i + 1)
        } else if s[i] == CMAPB_KEY {
            let j = i + 1;
            if j + 8 <= s.len() {
                let klen = spec_le_u64_at(s, j);
                if j + 8 + klen <= s.len() {
                    let k = s.subrange(j + 8, j + 8 + klen);
                    let (vr, p) = Self::spec_cont_input(s, j + 8 + klen);
                    match vr {
                        Ok(cv) => if i < p <= s.len() {
                            Self::spec_entries_input(s, p, acc.insert(k, cv))
                        } else {
                            (Err(FlotonErr::UnexpectedByte(0)), p)
                        },
                        Err(e) => (Err(e), p),
                    }
                } else {
                    (Err(FlotonErr::UnexpectedByte(0)), j + 8)
                }
            } else {
                (Err(FlotonErr::UnexpectedByte(0)), j)
            }
        } else {
            (Err(FlotonErr::UnexpectedByte(s[i])), i)
        }
    }

    /// Installing a value moves a map container's shape by exactly that
    /// key.
    proof fn lemma_model_after_set(pre: Container, post: Container, key: Seq<u8>, val: Container)
        requires
            pre is CMap,
            post is CMap,
            post.entries().dom() =~= pre.entries().dom().insert(key),
            forall|k: Seq<u8>|
                k != key && pre.entries().dom().contains(k) ==> #[trigger] (post.entries()[k])
                    == pre.entries()[k],
            post.entry_val(key) == Some(val),
        ensures
            post.model() == ContView::MapV(pre.model()->MapV_0.insert(key, val.model())),
    {
        let m1 = pre.model()->MapV_0;
        let m2 = post.model()->MapV_0;
        let goal = m1.insert(key, val.model());
        assert forall|k: Seq<u8>| #[trigger] m2.dom().contains(k) implies goal.dom().contains(k)
            && m2[k] == goal[k] by {
            if k != key {
                assert(pre.entries().dom().contains(k));
                assert(post.entries()[k] == pre.entries()[k]);
            }
        }
        assert forall|k: Seq<u8>| #[trigger] goal.dom().contains(k) implies m2.dom().contains(
            k,
        ) by {
            if k != key {
                assert(pre.entries().dom().contains(k));
                assert(post.entries()[k] == pre.entries()[k]);
            }
        }
        assert(m2 =~= goal);
    }

    /// Parses one container from `input` at cursor `place`.  A map opens
    /// with the map-begin tag and reads key-marked entries until the end
    /// tag; anything else parses as a leaf value.  `tid` and `now` stamp
    /// the entries the parsed maps hold.
    #[verifier::loop_isolation(false)]
    pub fn input_binary(input: &Vec<u8>, place: &mut usize, tid: usize, now: u64) -> (r: Result<
        Container,
        FlotonErr,
    >)
        requires
            tid < usize::MAX,
        ensures
            r is Ok ==> *old(place) < *final(place) <= input@.len(),
            r is Ok ==> r->Ok_0.deep_wf(),
            *old(place) <= input@.len() ==> *old(place) <= *final(place) <= input@.len(),
            ({
                let (sr, sp) = Self::spec_cont_input(input@, *old(place) as int);
                &&& *final(place) as int == sp
                &&& match (r, sr) {
                    (Ok(c), Ok(m)) => c.model() == m,
                    (Err(e), Err(ev)) => e@ == ev@,
                    _ => false,
                }
            }),
        decreases input@.len() - *old(place),
    {
        proof {
            vstd::std_specs::vec::axiom_spec_len(input);
        }
        if *place >= input.len() {
            return Err(FlotonErr::UnexpectedByte(0));
        }
        let tag = input[*place];
        if tag == VBIN_CMAP_BEGIN {
            *place += 1;
            let mut nmap = Container::new_map(40);
            let ghost start = *place;
            proof {
                assert(nmap.model()->MapV_0 =~= Map::<Seq<u8>, ContView>::empty());
            }
            loop
                invariant
                    nmap.deep_wf(),
                    nmap.map_wf(),
                    start <= *place,
                    *place <= input@.len(),
                    input@.len() <= usize::MAX,
                    tid < usize::MAX,
                    Self::spec_cont_input(input@, *old(place) as int) == Self::spec_entries_input(
                        input@,
                        *place as int,
                        nmap.model()->MapV_0,
                    ),
                decreases input@.len() - *place,
            {
                if *place >= input.len() {
                    return Err(FlotonErr::UnexpectedByte(0));
                }
                let b = input[*place];
                if b == VBIN_CMAP_END {
                    *place += 1;
                    return Ok(nmap);
                }
                if b == CMAPB_KEY {
                    *place += 1;
                    if input.len() - *place < 8 {
                        return Err(FlotonErr::UnexpectedByte(0));
                    }
                    let ksize64 = read_u64_le(input, *place);
                    *place += 8;
                    if ksize64 > (input.len() - *place) as u64 {
                        return Err(FlotonErr::UnexpectedByte(0));
                    }
                    let ksize = ksize64 as usize;
                    let kslice = bytes_range(input, *place, *place + ksize);
                    *place += ksize;
                    let ghost pre_map = nmap;
                    match Self::input_binary(input, place, tid, now) {
                        Ok(val) => {
                            nmap.set_map(&kslice, val, tid, now);
                            proof {
                                Self::lemma_model_after_set(pre_map, nmap, kslice@, val);
                            }
                        },
                        Err(e) => {
                            return Err(e);
                        },
                    }
                } else {
                    return Err(FlotonErr::UnexpectedByte(b));
                }
            }
        } else {
            match Value::input_binary(input, place) {
                Ok(v) => Ok(Container::Val(v)),
                Err(e) => Err(e),
            }
        }
    }

    /// Structural soundness of a tree for streaming: every key fits the
    /// machine word its length is stamped into.
    pub open spec fn stream_ok(self) -> bool
        decreases self, 2int,
    {
        match self {
            Container::Val(_) => true,
            Container::CMap(tb) => Self::tree_stream_ok(*tb),
        }
    }

    /// Streaming soundness of one tree.
    pub open spec fn tree_stream_ok(t: HashTree<Shared<Container>>) -> bool
        decreases t, 1int,
    {
        match t {
            HashTree::Table(_, slots) => Self::slots_stream_ok(slots@),
            HashTree::Item(k, sh, ov) => {
                &&& k@.len() <= usize::MAX
                &&& match sh.cur {
                    Some(tp) => tp.0.stream_ok(),
                    None => true,
                }
                &&& match ov {
                    Some(b) => Self::tree_stream_ok(*b),
                    None => true,
                }
            },
        }
    }

    /// Streaming soundness of a table's slots.
    pub open spec fn slots_stream_ok(s: Seq<Option<Box<HashTree<Shared<Container>>>>>) -> bool
        decreases s, 0int,
    {
        if s.len() == 0 {
            true
        } else {
            (match s[0] {
                Some(b) => Self::tree_stream_ok(*b),
                None => true,
            }) && Self::slots_stream_ok(s.subrange(1, s.len() as int))
        }
    }

    /// The shape a container's byte stream describes: like `model`, but
    /// built in stream order, so a key written twice keeps the later
    /// value.
    pub open spec fn stream_model(self) -> ContView
        decreases self, 2int,
    {
        match self {
            Container::Val(v) => ContView::ValV(v),
            Container::CMap(tb) => ContView::MapV(
                Self::spec_tree_fold(*tb, Map::empty()),
            ),
        }
    }

    /// The map a tree's streamed entries build up over `acc`, a later
    /// entry for a key replacing an earlier one.
    pub open spec fn spec_tree_fold(
        t: HashTree<Shared<Container>>,
        acc: Map<Seq<u8>, ContView>,
    ) -> Map<Seq<u8>, ContView>
        decreases t, 1int,
    {
        match t {
            HashTree::Table(_, slots) => Self::spec_slots_fold(slots@, acc),
            HashTree::Item(k, sh, ov) => {
                let acc1 = match sh.cur {
                    Some(tp) => acc.insert(k@, tp.0.stream_model()),
                    None => acc,
                };
                match ov {
                    Some(b) => Self::spec_tree_fold(*b, acc1),
                    None => acc1,
                }
            },
        }
    }

    /// The fold over a table's slots, front to back.
    pub open spec fn spec_slots_fold(
        s: Seq<Option<Box<HashTree<Shared<Container>>>>>,
        acc: Map<Seq<u8>, ContView>,
    ) -> Map<Seq<u8>, ContView>
        decreases s, 0int,
    {
        if s.len() == 0 {
            acc
        } else {
            Self::spec_slots_fold(
                s.subrange(1, s.len() as int),
                match s[0] {
                    Some(b) => Self::spec_tree_fold(*b, acc),
                    None => acc,
                },
            )
        }
    }

    /// Parsing a serialized container embedded at offset `i` yields its
    /// stream shape and stops right after its bytes.
    proof fn lemma_cont_parse(c: Container, s: Seq<u8>, i: int)
        requires
            c.stream_ok(),
            0 <= i,
            i + c.spec_wire().len() <= s.len(),
            s.subrange(i, i + c.spec_wire().len() as int) == c.spec_wire(),
        ensures
            Self::spec_cont_input(s, i) == (
                Ok::<ContView, FlotonErr>(c.stream_model()),
                i + c.spec_wire().len(),
            ),
        decreases c, 2int,
    {
        let w = c.spec_wire();
        assert forall|j: int| 0 <= j < w.len() implies s[i + j] == w[j] by {
            assert(s.subrange(i, i + w.len() as int)[j] == s[i + j]);
        }
        match c {
            Container::Val(v) => {
                assert(w == v.spec_wire());
                assert(s[i] == w[0]);
                assert(w[0] != VBIN_CMAP_BEGIN);
                crate::values::lemma_value_wire_embed(v, s, i);
            },
            Container::CMap(tb) => {
                let tw = Self::spec_tree_wire(*tb);
                let l = tw.len() as int;
                assert(s[i + 0] == w[0]);
                assert(w[0] == VBIN_CMAP_BEGIN);
                assert(s[i] == VBIN_CMAP_BEGIN);
                assert(s.subrange(i + 1, i + 1 + l) =~= tw) by {
                    assert forall|j: int| 0 <= j < l implies s.subrange(i + 1, i + 1 + l)[j]
                        == tw[j] by {
                        assert(s.subrange(i + 1, i + 1 + l)[j] == s[i + 1 + j]);
                        assert(s[i + (1 + j)] == w[1 + j]);
                        assert(w[1 + j] == tw[j]);
                    }
                }
                Self::lemma_tree_parse(*tb, s, i + 1, Map::empty());
                assert(s[i + 1 + l] == w[1 + l]);
                assert(w[1 + l] == VBIN_CMAP_END);
                assert(Self::spec_entries_input(s, i + 1 + l, Self::spec_tree_fold(*tb, Map::empty()))
                    == (
                    Ok::<ContView, FlotonErr>(
                        ContView::MapV(Self::spec_tree_fold(*tb, Map::empty())),
                    ),
                    i + 1 + l + 1,
                ));
            },
        }
    }

    /// Parsing the streamed entries of a tree embedded at offset `i`
    /// folds exactly those entries over the accumulator and stops right
    /// after them.
    proof fn lemma_tree_parse(
        t: HashTree<Shared<Container>>,
        s: Seq<u8>,
        i: int,
        acc: Map<Seq<u8>, ContView>,
    )
        requires
            Self::tree_stream_ok(t),
            0 <= i,
            i + Self::spec_tree_wire(t).len() <= s.len(),
            s.subrange(i, i + Self::spec_tree_wire(t).len() as int) == Self::spec_tree_wire(t),
        ensures
            Self::spec_entries_input(s, i, acc) == Self::spec_entries_input(
                s,
                i + Self::spec_tree_wire(t).len(),
                Self::spec_tree_fold(t, acc),
            ),
        decreases t, 1int,
    {
        let tw = Self::spec_tree_wire(t);
        assert forall|j: int| 0 <= j < tw.len() implies s[i + j] == tw[j] by {
            assert(s.subrange(i, i + tw.len() as int)[j] == s[i + j]);
        }
        match t {
            HashTree::Table(_, slots) => {
                Self::lemma_slots_parse(slots@, s, i, acc);
            },
            HashTree::Item(k, sh, ov) => {
                let head = match sh.cur {
                    Some(tp) => seq![CMAPB_KEY] + spec_le_bytes_u64(k@.len() as u64) + k@
                        + tp.0.spec_wire(),
                    None => Seq::<u8>::empty(),
                };
                let ovw = match ov {
                    Some(b) => Self::spec_tree_wire(*b),
                    None => Seq::<u8>::empty(),
                };
                assert(tw == head + ovw);
                let hl = head.len() as int;
                let acc1 = match sh.cur {
                    Some(tp) => acc.insert(k@, tp.0.stream_model()),
                    None => acc,
                };
                match sh.cur {
                    None => {
                        assert(tw =~= ovw);
                    },
                    Some(tp) => {
                        let vw = tp.0.spec_wire();
                        let klen = k@.len() as int;
                        assert(s[i + 0] == tw[0]);
                        assert(tw[0] == head[0]);
                        assert(head[0] == CMAPB_KEY);
                        assert(s[i] == CMAPB_KEY);
                        assert forall|j: int| 0 <= j < 8 implies s[i + 1 + j]
                            == #[trigger] (spec_le_bytes_u64(k@.len() as u64)[j]) by {
                            assert(s[i + (1 + j)] == tw[1 + j]);
                            assert(tw[1 + j] == head[1 + j]);
                        }
                        crate::fast_output::lemma_le_u64_embed(s, i + 1, k@.len() as u64);
                        assert((k@.len() as u64) as int == klen);
                        assert(s.subrange(i + 9, i + 9 + klen) =~= k@) by {
                            assert forall|j: int| 0 <= j < klen implies s.subrange(
                                i + 9,
                                i + 9 + klen,
                            )[j] == k@[j] by {
                                assert(s.subrange(i + 9, i + 9 + klen)[j] == s[i + 9 + j]);
                                assert(s[i + (9 + j)] == tw[9 + j]);
                                assert(tw[9 + j] == head[9 + j]);
                                assert(head[9 + j] == k@[j]);
                            }
                        }
                        assert(s.subrange(i + 9 + klen, i + 9 + klen + vw.len() as int)
                            =~= vw) by {
                            assert forall|j: int| 0 <= j < vw.len() implies s.subrange(
                                i + 9 + klen,
                                i + 9 + klen + vw.len() as int,
                            )[j] == vw[j] by {
                                assert(s.subrange(
                                    i + 9 + klen,
                                    i + 9 + klen + vw.len() as int,
                                )[j] == s[i + 9 + klen + j]);
                                assert(s[i + (9 + klen + j)] == tw[9 + klen + j]);
                                assert(tw[9 + klen + j] == head[9 + klen + j]);
                                assert(head[9 + klen + j] == vw[j]);
                            }
                        }
                        Self::lemma_cont_parse(tp.0, s, i + 9 + klen);
                        let p = i + 9 + klen + vw.len() as int;
                        assert(Self::spec_cont_input(s, i + 9 + klen) == (
                            Ok::<ContView, FlotonErr>(tp.0.stream_model()),
                            p,
                        ));
                        assert(Self::spec_entries_input(s, i, acc) == Self::spec_entries_input(
                            s,
                            p,
                            acc1,
                        ));
                    },
                }
                match ov {
                    None => {
                        assert(Self::spec_tree_fold(t, acc) == acc1);
                    },
                    Some(b) => {
                        assert(s.subrange(i + hl, i + hl + ovw.len() as int) =~= ovw) by {
                            assert forall|j: int| 0 <= j < ovw.len() implies s.subrange(
                                i + hl,
                                i + hl + ovw.len() as int,
                            )[j] == ovw[j] by {
                                assert(s.subrange(i + hl, i + hl + ovw.len() as int)[j] == s[i + hl
                                    + j]);
                                assert(s[i + (hl + j)] == tw[hl + j]);
                                assert(tw[hl + j] == ovw[j]);
                            }
                        }
                        Self::lemma_tree_parse(*b, s, i + hl, acc1);
                    },
                }
            },
        }
    }

    /// Parsing the streamed entries of a table's slots embedded at offset
    /// `i` folds them slot by slot.
    proof fn lemma_slots_parse(
        sl: Seq<Option<Box<HashTree<Shared<Container>>>>>,
        s: Seq<u8>,
        i: int,
        acc: Map<Seq<u8>, ContView>,
    )
        requires
            Self::slots_stream_ok(sl),
            0 <= i,
            i + Self::spec_slots_wire(sl).len() <= s.len(),
            s.subrange(i, i + Self::spec_slots_wire(sl).len() as int) == Self::spec_slots_wire(sl),
        ensures
            Self::spec_entries_input(s, i, acc) == Self::spec_entries_input(
                s,
                i + Self::spec_slots_wire(sl).len(),
                Self::spec_slots_fold(sl, acc),
            ),
        decreases sl, 0int,
    {
        if sl.len() > 0 {
            let sw = Self::spec_slots_wire(sl);
            assert forall|j: int| 0 <= j < sw.len() implies s[i + j] == sw[j] by {
                assert(s.subrange(i, i + sw.len() as int)[j] == s[i + j]);
            }
            let hw = match sl[0] {
                Some(b) => Self::spec_tree_wire(*b),
                None => Seq::<u8>::empty(),
            };
            let rest = sl.subrange(1, sl.len() as int);
            let rw = Self::spec_slots_wire(rest);
            assert(sw == hw + rw);
            let hl = hw.len() as int;
            let acc1 = match sl[0] {
                Some(b) => Self::spec_tree_fold(*b, acc),
                None => acc,
            };
            match sl[0] {
                Some(b) => {
                    assert(s.subrange(i, i + hl) =~= hw) by {
                        assert forall|j: int| 0 <= j < hl implies s.subrange(i, i + hl)[j]
                            == hw[j] by {
                            assert(s.subrange(i, i + hl)[j] == s[i + j]);
                            assert(sw[j] == hw[j]);
                        }
                    }
                    Self::lemma_tree_parse(*b, s, i, acc);
                },
                None => (),
            }
            assert(s.subrange(i + hl, i + hl + rw.len() as int) =~= rw) by {
                assert forall|j: int| 0 <= j < rw.len() implies s.subrange(
                    i + hl,
                    i + hl + rw.len() as int,
                )[j] == rw[j] by {
                    assert(s.subrange(i + hl, i + hl + rw.len() as int)[j] == s[i + hl + j]);
                    assert(s[i + (hl + j)] == sw[hl + j]);
                    assert(sw[hl + j] == rw[j]);
                }
            }
            Self::lemma_slots_parse(rest, s, i + hl, acc1);
        }
    }

    /// Wire round trip: parsing the wire form of any streamable container
    /// yields exactly its stream shape and consumes exactly its bytes.
    /// The stream shape reads a map's entries off the wire, so a key a
    /// malformed tree carries twice keeps the later entry; on trees built
    /// by this crate's operations the two shapes agree.
    pub proof fn lemma_container_wire_roundtrip(c: Container)
        requires
            c.stream_ok(),
        ensures
            Self::spec_cont_input(c.spec_wire(), 0) == (
                Ok::<ContView, FlotonErr>(c.stream_model()),
                c.spec_wire().len() as int,
            ),
    {
        let w = c.spec_wire();
        assert(w.subrange(0, w.len() as int) =~= w);
        Self::lemma_cont_parse(c, w, 0);
    }

    /// No key is stored twice anywhere in a container: within any item
    /// chain, across any table's slots, and inside every held container.
    pub open spec fn nodup(self) -> bool
        decreases self, 2int,
    {
        match self {
            Container::Val(_) => true,
            Container::CMap(tb) => Self::tree_nodup(*tb),
        }
    }

    /// Key uniqueness of one tree.
    pub open spec fn tree_nodup(t: HashTree<Shared<Container>>) -> bool
        decreases t, 1int,
    {
        match t {
            HashTree::Table(_, slots) => Self::slots_nodup(slots@),
            HashTree::Item(k, sh, ov) => {
                &&& match ov {
                    Some(b) => !(*b).as_map().dom().contains(k@) && Self::tree_nodup(*b),
                    None => true,
                }
                &&& match sh.cur {
                    Some(tp) => tp.0.nodup(),
                    None => true,
                }
            },
        }
    }

    /// Key uniqueness of a table's slots: each slot is duplicate-free and
    /// no key lives in two slots.
    pub open spec fn slots_nodup(s: Seq<Option<Box<HashTree<Shared<Container>>>>>) -> bool
        decreases s, 0int,
    {
        if s.len() == 0 {
            true
        } else {
            &&& match s[0] {
                Some(b) => Self::tree_nodup(*b) && (forall|k: Seq<u8>|
                    #[trigger] (*b).as_map().dom().contains(k) ==> !HashTree::<
                        Shared<Container>,
                    >::slots_map(s.subrange(1, s.len() as int)).dom().contains(k)),
                None => true,
            }
            &&& Self::slots_nodup(s.subrange(1, s.len() as int))
        }
    }

    /// The shape map one tree contributes: its occupied entries by key.
    pub open spec fn tree_model_map(t: HashTree<Shared<Container>>) -> Map<Seq<u8>, ContView> {
        Map::new(
            |k: Seq<u8>| t.as_map().dom().contains(k) && t.as_map()[k].cur is Some,
            |k: Seq<u8>|
                if t.as_map().dom().contains(k) && t.as_map()[k].cur is Some {
                    (t.as_map()[k].cur->Some_0.0).model()
                } else {
                    ContView::ValV(Value::Nothing)
                },
        )
    }

    /// The shape map a run of slots contributes.
    pub open spec fn slots_model_map(s: Seq<Option<Box<HashTree<Shared<Container>>>>>) -> Map<
        Seq<u8>,
        ContView,
    > {
        Map::new(
            |k: Seq<u8>| {
                let m = HashTree::<Shared<Container>>::slots_map(s);
                m.dom().contains(k) && m[k].cur is Some
            },
            |k: Seq<u8>| {
                let m = HashTree::<Shared<Container>>::slots_map(s);
                if m.dom().contains(k) && m[k].cur is Some {
                    (m[k].cur->Some_0.0).model()
                } else {
                    ContView::ValV(Value::Nothing)
                }
            },
        )
    }

    /// Folding a duplicate-free tree's stream lays its shape map over the
    /// accumulator.
    proof fn lemma_fold_is_model(t: HashTree<Shared<Container>>, acc: Map<Seq<u8>, ContView>)
        requires
            Self::tree_nodup(t),
        ensures
            ({
                let f = Self::spec_tree_fold(t, acc);
                let m = Self::tree_model_map(t);
                &&& forall|k: Seq<u8>|
                    #[trigger] m.dom().contains(k) ==> f.dom().contains(k) && f[k] == m[k]
                &&& forall|k: Seq<u8>|
                    !m.dom().contains(k) && #[trigger] acc.dom().contains(k) ==> f.dom().contains(
                        k,
                    ) && f[k] == acc[k]
                &&& forall|k: Seq<u8>|
                    !m.dom().contains(k) && !acc.dom().contains(k) ==> !(#[trigger] f.dom().contains(
                    k))
            }),
        decreases t, 1int,
    {
        let f = Self::spec_tree_fold(t, acc);
        let m = Self::tree_model_map(t);
        match t {
            HashTree::Table(_, slots) => {
                Self::lemma_slots_fold_is_model(slots@, acc);
                assert(f == Self::spec_slots_fold(slots@, acc));
                assert(t.as_map() == HashTree::<Shared<Container>>::slots_map(slots@));
                assert(m =~= Self::slots_model_map(slots@));
                assert(m == Self::slots_model_map(slots@));
            },
            HashTree::Item(k0, sh, ov) => {
                let acc1 = match sh.cur {
                    Some(tp) => acc.insert(k0@, tp.0.stream_model()),
                    None => acc,
                };
                match sh.cur {
                    Some(tp) => {
                        Self::lemma_stream_model_is_model(tp.0);
                    },
                    None => (),
                }
                match ov {
                    Some(b) => {
                        Self::lemma_fold_is_model(*b, acc1);
                        let mo = Self::tree_model_map(*b);
                        assert(f == Self::spec_tree_fold(*b, acc1));
                        assert(t.as_map() == (*b).as_map().insert(k0@, sh));
                        assert(t.as_map()[k0@] == sh);
                        assert forall|k: Seq<u8>| #[trigger] m.dom().contains(
                            k,
                        ) implies f.dom().contains(k) && f[k] == m[k] by {
                            if k == k0@ {
                                assert(!(*b).as_map().dom().contains(k0@));
                                assert(!mo.dom().contains(k0@));
                                assert(sh.cur is Some);
                                assert(acc1.dom().contains(k0@));
                                assert(acc1[k0@] == sh.cur->Some_0.0.stream_model());
                                assert(m[k0@] == sh.cur->Some_0.0.model());
                                assert(f.dom().contains(k0@) && f[k0@] == acc1[k0@]);
                            } else {
                                assert(t.as_map()[k] == (*b).as_map()[k]);
                                assert(mo.dom().contains(k) && mo[k] == m[k]);
                            }
                        }
                        assert forall|k: Seq<u8>|
                            !m.dom().contains(k) && #[trigger] acc.dom().contains(
                                k,
                            ) implies f.dom().contains(k) && f[k] == acc[k] by {
                            if k == k0@ {
                                match sh.cur {
                                    Some(_) => {
                                        assert(m.dom().contains(k0@));
                                    },
                                    None => {
                                        assert(!mo.dom().contains(k0@));
                                        assert(acc1 == acc);
                                    },
                                }
                            } else {
                                assert(t.as_map().dom().contains(k) == (*b).as_map().dom().contains(
                                k));
                                assert(t.as_map()[k] == (*b).as_map()[k]);
                                assert(!mo.dom().contains(k));
                                assert(acc1.dom().contains(k) && acc1[k] == acc[k]);
                            }
                        }
                        assert forall|k: Seq<u8>|
                            !m.dom().contains(k) && !acc.dom().contains(k) implies !(
                        #[trigger] f.dom().contains(k)) by {
                            if k == k0@ {
                                match sh.cur {
                                    Some(_) => {
                                        assert(m.dom().contains(k0@));
                                    },
                                    None => {
                                        assert(!mo.dom().contains(k0@));
                                        assert(acc1 == acc);
                                    },
                                }
                            } else {
                                assert(t.as_map().dom().contains(k) == (*b).as_map().dom().contains(
                                k));
                                assert(t.as_map()[k] == (*b).as_map()[k]);
                                assert(!mo.dom().contains(k));
                                assert(!acc1.dom().contains(k));
                            }
                        }
                    },
                    None => {
                        assert(f == acc1);
                        assert forall|k: Seq<u8>| #[trigger] m.dom().contains(
                            k,
                        ) implies f.dom().contains(k) && f[k] == m[k] by {
                            assert(k == k0@);
                        }
                    },
                }
            },
        }
    }

    /// Folding the streams of a duplicate-free run of slots lays their
    /// shape map over the accumulator.
    proof fn lemma_slots_fold_is_model(
        s: Seq<Option<Box<HashTree<Shared<Container>>>>>,
        acc: Map<Seq<u8>, ContView>,
    )
        requires
            Self::slots_nodup(s),
        ensures
            ({
                let f = Self::spec_slots_fold(s, acc);
                let m = Self::slots_model_map(s);
                &&& forall|k: Seq<u8>|
                    #[trigger] m.dom().contains(k) ==> f.dom().contains(k) && f[k] == m[k]
                &&& forall|k: Seq<u8>|
                    !m.dom().contains(k) && #[trigger] acc.dom().contains(k) ==> f.dom().contains(
                        k,
                    ) && f[k] == acc[k]
                &&& forall|k: Seq<u8>|
                    !m.dom().contains(k) && !acc.dom().contains(k) ==> !(#[trigger] f.dom().contains(
                    k))
            }),
        decreases s, 0int,
    {
        let f = Self::spec_slots_fold(s, acc);
        let m = Self::slots_model_map(s);
        if s.len() == 0 {
            assert(HashTree::<Shared<Container>>::slots_map(s) =~= Map::<
                Seq<u8>,
                Shared<Container>,
            >::empty());
            assert(forall|k: Seq<u8>| !(#[trigger] m.dom().contains(k)));
        } else {
            let rest = s.subrange(1, s.len() as int);
            let acc1 = match s[0] {
                Some(b) => Self::spec_tree_fold(*b, acc),
                None => acc,
            };
            let mrest = Self::slots_model_map(rest);
            let restmap = HashTree::<Shared<Container>>::slots_map(rest);
            let headmap = HashTree::<Shared<Container>>::opt_map(s[0]);
            match s[0] {
                Some(b) => {
                    Self::lemma_fold_is_model(*b, acc);
                },
                None => (),
            }
            Self::lemma_slots_fold_is_model(rest, acc1);
            let mhead = match s[0] {
                Some(b) => Self::tree_model_map(*b),
                None => Map::<Seq<u8>, ContView>::empty(),
            };
            let full = HashTree::<Shared<Container>>::slots_map(s);
            assert(full == headmap.union_prefer_right(restmap));
            assert(f == Self::spec_slots_fold(rest, acc1));
            assert forall|k: Seq<u8>|
                headmap.dom().contains(k) implies !restmap.dom().contains(k) && (forall|j: int|
                1 <= j < s.len() ==> !HashTree::<Shared<Container>>::opt_map(
                    #[trigger] s[j],
                ).dom().contains(k)) by {
                assert(s[0] is Some);
                assert((s[0]->Some_0).as_map().dom().contains(k));
                assert(!restmap.dom().contains(k));
                assert forall|j: int| 1 <= j < s.len() implies !HashTree::<
                    Shared<Container>,
                >::opt_map(#[trigger] s[j]).dom().contains(k) by {
                    if HashTree::<Shared<Container>>::opt_map(s[j]).dom().contains(k) {
                        assert(rest[j - 1] == s[j]);
                        HashTree::<Shared<Container>>::lemma_slots_map_mem(rest, j - 1, k);
                    }
                }
            }
            assert forall|k: Seq<u8>| #[trigger] m.dom().contains(k) implies f.dom().contains(k)
                && f[k] == m[k] by {
                if restmap.dom().contains(k) {
                    assert(full[k] == restmap[k]);
                    assert(mrest.dom().contains(k) && mrest[k] == m[k]);
                } else {
                    assert(full.dom().contains(k));
                    assert(headmap.dom().contains(k));
                    assert(s[0] is Some);
                    HashTree::<Shared<Container>>::lemma_slots_map_get(s, 0, k);
                    assert(full[k] == headmap[k]);
                    assert(mhead.dom().contains(k) && mhead[k] == m[k]);
                    assert(!mrest.dom().contains(k));
                    assert(acc1.dom().contains(k) && acc1[k] == m[k]);
                }
            }
            assert forall|k: Seq<u8>|
                !m.dom().contains(k) && #[trigger] acc.dom().contains(k) implies f.dom().contains(
                k,
            ) && f[k] == acc[k] by {
                assert(!mrest.dom().contains(k)) by {
                    if mrest.dom().contains(k) {
                        assert(restmap.dom().contains(k) && restmap[k].cur is Some);
                        assert(full.dom().contains(k) && full[k] == restmap[k]);
                        assert(m.dom().contains(k));
                        assert(false);
                    }
                }
                if headmap.dom().contains(k) {
                    assert(s[0] is Some);
                    assert(headmap == (s[0]->Some_0).as_map());
                    assert(!restmap.dom().contains(k));
                    HashTree::<Shared<Container>>::lemma_slots_map_get(s, 0, k);
                    assert(full[k] == headmap[k]);
                    assert(!mhead.dom().contains(k));
                    assert(acc1.dom().contains(k) && acc1[k] == acc[k]);
                } else {
                    match s[0] {
                        Some(b2) => {
                            assert(headmap == (*b2).as_map());
                            assert(!mhead.dom().contains(k));
                        },
                        None => {
                            assert(!mhead.dom().contains(k));
                        },
                    }
                    assert(acc1.dom().contains(k) && acc1[k] == acc[k]);
                }
            }
            assert forall|k: Seq<u8>|
                !m.dom().contains(k) && !acc.dom().contains(k) implies !(#[trigger] f.dom().contains(
            k)) by {
                assert(!mrest.dom().contains(k)) by {
                    if mrest.dom().contains(k) {
                        assert(restmap.dom().contains(k) && restmap[k].cur is Some);
                        assert(full.dom().contains(k) && full[k] == restmap[k]);
                        assert(m.dom().contains(k));
                        assert(false);
                    }
                }
                if headmap.dom().contains(k) {
                    assert(s[0] is Some);
                    assert(headmap == (s[0]->Some_0).as_map());
                    assert(!restmap.dom().contains(k));
                    HashTree::<Shared<Container>>::lemma_slots_map_get(s, 0, k);
                    assert(full[k] == headmap[k]);
                    assert(!mhead.dom().contains(k));
                    assert(!acc1.dom().contains(k));
                } else {
                    match s[0] {
                        Some(b2) => {
                            assert(headmap == (*b2).as_map());
                            assert(!mhead.dom().contains(k));
                        },
                        None => {
                            assert(!mhead.dom().contains(k));
                        },
                    }
                    assert(!acc1.dom().contains(k));
                }
            }
        }
    }

    /// A duplicate-free container's stream shape is exactly its shape, so
    /// for such containers the wire round trip returns the shape itself.
    pub proof fn lemma_stream_model_is_model(c: Container)
        requires
            c.nodup(),
        ensures
            c.stream_model() == c.model(),
        decreases c, 2int,
    {
        match c {
            Container::Val(_) => {},
            Container::CMap(tb) => {
                Self::lemma_fold_is_model(*tb, Map::empty());
                assert(Self::spec_tree_fold(*tb, Map::empty()) =~= Self::tree_model_map(*tb));
                assert(c.model()->MapV_0 =~= Self::tree_model_map(*tb));
            },
        }
    }

    /// The round trip in one statement: parsing the wire form of any
    /// streamable, duplicate-free container yields exactly the
    /// container's shape and consumes exactly its bytes.  Map entries
    /// come back by key, so the order the bytes streamed the entries in
    /// does not matter.
    pub proof fn lemma_wire_roundtrip_shape(c: Container)
        requires
            c.stream_ok(),
            c.nodup(),
        ensures
            Self::spec_cont_input(c.spec_wire(), 0) == (
                Ok::<ContView, FlotonErr>(c.model()),
                c.spec_wire().len() as int,
            ),
    {
        Self::lemma_container_wire_roundtrip(c);
        Self::lemma_stream_model_is_model(c);
    }

    /// A borrow of the shared slot at `key`, when present.
    pub fn get_map_shared(&self, key: &Vec<u8>) -> (r: Option<&Shared<Container>>)
        requires
            self.map_wf(),
        ensures
            match r {
                Some(sh) => self.entries().dom().contains(key@) && *sh == self.entries()[key@],
                None => !self.entries().dom().contains(key@),
            },
    {
        match self {
            Container::CMap(mb) => (&**mb).find_bytes(key, MAP_KEY_ALIGN),
            Container::Val(_) => unreached(),
        }
    }

    /// A borrow of the container held at `key`, when the slot exists and
    /// holds one.
    pub fn get_map(&self, key: &Vec<u8>) -> (r: Option<&Container>)
        requires
            self.map_wf(),
        ensures
            match r {
                Some(c) => self.entry_val(key@) == Some(*c),
                None => self.entry_val(key@) is None,
            },
            self.deep_wf() && r is Some ==> r->Some_0.deep_wf(),
    {
        match self {
            Container::CMap(mb) => {
                match (&**mb).find_bytes(key, MAP_KEY_ALIGN) {
                    Some(sh) => {
                        match sh.current_ref() {
                            Some(tp) => Some(&tp.0),
                            None => None,
                        }
                    },
                    None => None,
                }
            },
            Container::Val(_) => unreached(),
        }
    }
}

impl InPutOutPut for Container {
    fn output_binary(&self, output: &mut Vec<u8>) {
        Container::output_binary(self, output)
    }

    /// Parses with thread id 0 and clock reading 0: the parse result
    /// carries timestamps only for reclamation bookkeeping, which a
    /// caller that needs it drives through the richer inherent method.
    fn input_binary(input: &Vec<u8>, place: &mut usize) -> Result<Self, FlotonErr> {
        Container::input_binary(input, place, 0, 0)
    }
}

} // verus!