//! The command interpreter: walks a request buffer, descends the
//! container tree by packed key segments, and runs the requested returns,
//! stores and atomic operations.

use vstd::prelude::*;
use crate::constants::CMD_STOP;
use crate::constants::CMD_RETURN_KV;
use crate::constants::CMD_SET_KV;
use crate::constants::CMD_OP_ATOMIC;
use crate::constants::OP_ATOMIC_STORE;
use crate::constants::OP_ATOMIC_STORE_RELAX;
use crate::constants::OP_ATOMIC_SWAP;
use crate::constants::OP_ATOMIC_SWAP_RELAX;
use crate::constants::OP_ATOMIC_COND_STORE;
use crate::constants::OP_ATOMIC_COND_STORE_RELAX;
use crate::constants::OP_ATOMIC_COND_SWAP;
use crate::constants::OP_ATOMIC_COND_SWAP_RELAX;
use crate::constants::OP_ATOMIC_ADD;
use crate::constants::OP_ATOMIC_ADD_FETCH;
use crate::constants::OP_ATOMIC_SUB;
use crate::constants::OP_ATOMIC_SUB_FETCH;
use crate::constants::OP_NORM_UPDATE;
use crate::constants::VBIN_BOOL;
use crate::constants::VBIN_CMAP_BEGIN;
use crate::values::Value;
use crate::values::MemOrder;
use crate::errors::FlotonErr;
use crate::errors::FlotonErrView;
use crate::errors::spec_err_wire;
use crate::containers::Container;
use crate::shared::Shared;
use crate::shared::TimePtr;
use crate::fast_output::spec_le_u16_at;
use crate::fast_output::read_u16_le;
use crate::fast_output::out_bool;
use crate::keys::parse_key;
use crate::keys::clone_bytes;

verus! {

/// The container reached from `c` by following the key segments
/// `segs[d..]`: each step reads the slot of the next segment; a missing
/// slot, an empty slot or a leaf met before the last segment ends the
/// walk.
pub open spec fn spec_descend(c: Container, segs: Seq<Seq<u8>>, d: int) -> Option<Container>
    decreases segs.len() - d,
{
    if d < 0 || d >= segs.len() {
        Some(c)
    } else if c is CMap {
        match c.entry_val(segs[d]) {
            Some(c2) => spec_descend(c2, segs, d + 1),
            None => None,
        }
    } else {
        None
    }
}

/// What one atomic operation does, given the leaf value `v`, the request
/// bytes from the opcode on, and the packed key for error reporting: the
/// outcome, the leaf afterwards, the bytes emitted, and the cursor
/// afterwards.
pub open spec fn spec_run_atomic(s: Seq<u8>, i: int, key: Seq<u8>, v: Value) -> (Result<
    (),
    FlotonErrView,
>, Value, Seq<u8>, int) {
    if i < 0 || i + 2 > s.len() {
        (Err(FlotonErrView::UnexpectedByte(0)), v, Seq::empty(), i)
    } else {
        let op = spec_le_u16_at(s, i);
        let j = i + 2;
        if op == OP_ATOMIC_STORE || op == OP_ATOMIC_STORE_RELAX {
            let (ar, p) = Value::spec_input(s, j);
            match ar {
                Err(e) => (Err(e@), v, Seq::empty(), p),
                Ok(arg) => match v.spec_store(arg) {
                    Some(v2) => (Ok(()), v2, Seq::empty(), p),
                    None => (
                        Err(FlotonErrView::TypeNotAtomic(key, v.spec_type_tag())),
                        v,
                        Seq::empty(),
                        p,
                    ),
                },
            }
        } else if op == OP_ATOMIC_SWAP || op == OP_ATOMIC_SWAP_RELAX {
            let (ar, p) = Value::spec_input(s, j);
            match ar {
                Err(e) => (Err(e@), v, Seq::empty(), p),
                Ok(arg) => match v.spec_swap(arg) {
                    Some(pair) => (Ok(()), pair.0, pair.1.spec_wire(), p),
                    None => (
                        Err(FlotonErrView::TypeNotAtomic(key, v.spec_type_tag())),
                        v,
                        Seq::empty(),
                        p,
                    ),
                },
            }
        } else if op == OP_ATOMIC_COND_STORE || op == OP_ATOMIC_COND_STORE_RELAX {
            let (er, p1) = Value::spec_input(s, j);
            match er {
                Err(e) => (Err(e@), v, Seq::empty(), p1),
                Ok(expected) => {
                    let (dr, p2) = Value::spec_input(s, p1);
                    match dr {
                        Err(e) => (Err(e@), v, Seq::empty(), p2),
                        Ok(desired) => match v.spec_cond_store(expected, desired) {
                            Some(pair) => (
                                Ok(()),
                                pair.0,
                                seq![VBIN_BOOL, (if pair.1 { 1u8 } else { 0u8 })],
                                p2,
                            ),
                            None => (
                                Err(FlotonErrView::TypeNotAtomic(key, v.spec_type_tag())),
                                v,
                                Seq::empty(),
                                p2,
                            ),
                        },
                    }
                },
            }
        } else if op == OP_ATOMIC_COND_SWAP || op == OP_ATOMIC_COND_SWAP_RELAX {
            let (er, p1) = Value::spec_input(s, j);
            match er {
                Err(e) => (Err(e@), v, Seq::empty(), p1),
                Ok(expected) => {
                    let (dr, p2) = Value::spec_input(s, p1);
                    match dr {
                        Err(e) => (Err(e@), v, Seq::empty(), p2),
                        Ok(desired) => match v.spec_cond_swap(expected, desired) {
                            Some(t) => (
                                Ok(()),
                                t.0,
                                seq![VBIN_BOOL, (if t.1 { 1u8 } else { 0u8 })] + t.2.spec_wire(),
                                p2,
                            ),
                            None => (
                                Err(FlotonErrView::TypeNotAtomic(key, v.spec_type_tag())),
                                v,
                                Seq::empty(),
                                p2,
                            ),
                        },
                    }
                },
            }
        } else if op == OP_ATOMIC_ADD || op == OP_ATOMIC_ADD_FETCH {
            let (ar, p) = Value::spec_input(s, j);
            match ar {
                Err(e) => (Err(e@), v, Seq::empty(), p),
                Ok(arg) => match v.spec_fetch_add(arg) {
                    Some(pair) => (
                        Ok(()),
                        pair.0,
                        if op == OP_ATOMIC_ADD_FETCH {
                            pair.1.spec_wire()
                        } else {
                            Seq::empty()
                        },
                        p,
                    ),
                    None => (
                        Err(FlotonErrView::TypeNotAtomic(key, v.spec_fetch_err_tag())),
                        v,
                        Seq::empty(),
                        p,
                    ),
                },
            }
        } else if op == OP_ATOMIC_SUB || op == OP_ATOMIC_SUB_FETCH {
            let (ar, p) = Value::spec_input(s, j);
            match ar {
                Err(e) => (Err(e@), v, Seq::empty(), p),
                Ok(arg) => match v.spec_fetch_sub(arg) {
                    Some(pair) => (
                        Ok(()),
                        pair.0,
                        if op == OP_ATOMIC_SUB_FETCH {
                            pair.1.spec_wire()
                        } else {
                            Seq::empty()
                        },
                        p,
                    ),
                    None => (
                        Err(FlotonErrView::TypeNotAtomic(key, v.spec_fetch_err_tag())),
                        v,
                        Seq::empty(),
                        p,
                    ),
                },
            }
        } else {
            (Err(FlotonErrView::UnexpectedByte((op >> 8) as u8)), v, Seq::empty(), j)
        }
    }
}

/// Reads an atomic opcode and its arguments at the cursor and applies the
/// operation to the leaf `data`, emitting what the opcode answers.
pub fn run_atomic_operation(
    place: &mut usize,
    cmd: &Vec<u8>,
    key: &Vec<u8>,
    data: &mut Value,
    output: &mut Vec<u8>,
) -> (r: Result<(), FlotonErr>)
    ensures
        ({
            let (rr, nv, app, np) = spec_run_atomic(
                cmd@,
                *old(place) as int,
                key@,
                *old(data),
            );
            &&& match (r, rr) {
                (Ok(()), Ok(())) => true,
                (Err(e), Err(ev)) => e@ == ev,
                _ => false,
            }
            &&& *final(data) == nv
            &&& final(output)@ == old(output)@ + app
            &&& *final(place) as int == np
        }),
        *old(place) <= cmd@.len() ==> *final(place) <= cmd@.len(),
        r is Ok ==> *old(place) < *final(place),
{
    proof {
        vstd::std_specs::vec::axiom_spec_len(cmd);
    }
    if cmd.len() < 2 || *place > cmd.len() - 2 {
        return Err(FlotonErr::UnexpectedByte(0));
    }
    let op = read_u16_le(cmd, *place);
    *place += 2;
    if op == OP_ATOMIC_STORE || op == OP_ATOMIC_STORE_RELAX {
        let order = if op == OP_ATOMIC_STORE {
            MemOrder::Release
        } else {
            MemOrder::Relaxed
        };
        match Value::input_binary(cmd, place) {
            Ok(arg) => data.store(&arg, order, key),
            Err(e) => Err(e),
        }
    } else if op == OP_ATOMIC_SWAP || op == OP_ATOMIC_SWAP_RELAX {
        let order = if op == OP_ATOMIC_SWAP {
            MemOrder::Release
        } else {
            MemOrder::Relaxed
        };
        match Value::input_binary(cmd, place) {
            Ok(arg) => {
                match data.swap(&arg, order, key) {
                    Ok(prev) => {
                        prev.output_binary(output);
                        Ok(())
                    },
                    Err(e) => Err(e),
                }
            },
            Err(e) => Err(e),
        }
    } else if op == OP_ATOMIC_COND_STORE || op == OP_ATOMIC_COND_STORE_RELAX {
        let order = if op == OP_ATOMIC_COND_STORE {
            MemOrder::Release
        } else {
            MemOrder::Relaxed
        };
        match Value::input_binary(cmd, place) {
            Ok(expected) => {
                match Value::input_binary(cmd, place) {
                    Ok(desired) => {
                        match data.cond_store(&expected, &desired, order, key) {
                            Ok(success) => {
                                out_bool(success, output);
                                Ok(())
                            },
                            Err(e) => Err(e),
                        }
                    },
                    Err(e) => Err(e),
                }
            },
            Err(e) => Err(e),
        }
    } else if op == OP_ATOMIC_COND_SWAP || op == OP_ATOMIC_COND_SWAP_RELAX {
        let order = if op == OP_ATOMIC_COND_SWAP {
            MemOrder::Release
        } else {
            MemOrder::Relaxed
        };
        match Value::input_binary(cmd, place) {
            Ok(expected) => {
                match Value::input_binary(cmd, place) {
                    Ok(desired) => {
                        match data.cond_swap(&expected, &desired, order, key) {
                            Ok(pair) => {
                                out_bool(pair.0, output);
                                pair.1.output_binary(output);
                                Ok(())
                            },
                            Err(e) => Err(e),
                        }
                    },
                    Err(e) => Err(e),
                }
            },
            Err(e) => Err(e),
        }
    } else if op == OP_ATOMIC_ADD || op == OP_ATOMIC_ADD_FETCH {
        let order = if op == OP_ATOMIC_ADD {
            MemOrder::Relaxed
        } else {
            MemOrder::Acquire
        };
        match Value::input_binary(cmd, place) {
            Ok(arg) => {
                match data.fetch_add(&arg, order, key) {
                    Ok(prev) => {
                        if op == OP_ATOMIC_ADD_FETCH {
                            prev.output_binary(output);
                        }
                        Ok(())
                    },
                    Err(e) => Err(e),
                }
            },
            Err(e) => Err(e),
        }
    } else if op == OP_ATOMIC_SUB || op == OP_ATOMIC_SUB_FETCH {
        let order = if op == OP_ATOMIC_SUB {
            MemOrder::Relaxed
        } else {
            MemOrder::Acquire
        };
        match Value::input_binary(cmd, place) {
            Ok(arg) => {
                match data.fetch_sub(&arg, order, key) {
                    Ok(prev) => {
                        if op == OP_ATOMIC_SUB_FETCH {
                            prev.output_binary(output);
                        }
                        Ok(())
                    },
                    Err(e) => Err(e),
                }
            },
            Err(e) => Err(e),
        }
    } else {
        Err(FlotonErr::UnexpectedByte((op >> 8) as u8))
    }
}

/// Reads a normal-operation opcode at the cursor and applies it to the
/// shared slot: an update parses a value and installs it as the slot's
/// new current leaf.
pub fn run_normal_operation(
    place: &mut usize,
    cmd: &Vec<u8>,
    key: &Vec<u8>,
    data: &mut Shared<Container>,
    output: &mut Vec<u8>,
    tid: usize,
    now: u64,
) -> (r: Result<(), FlotonErr>)
    requires
        tid < usize::MAX,
    ensures
        final(output)@ == old(output)@,
        ({
            if *old(place) + 2 <= cmd@.len() && spec_le_u16_at(cmd@, *old(place) as int)
                == OP_NORM_UPDATE {
                let (ar, p) = Value::spec_input(cmd@, *old(place) + 2);
                match ar {
                    Ok(arg) => r is Ok && *final(place) == p
                        && crate::shared::write_post(
                        *old(data),
                        *final(data),
                        TimePtr(Container::Val(arg), now),
                        tid as int,
                    ),
                    Err(e) => r matches Err(e2) && e2@ == e@ && *final(data) == *old(data)
                        && *final(place) == p,
                }
            } else {
                r is Err && *final(data) == *old(data)
            }
        }),
{
    proof {
        vstd::std_specs::vec::axiom_spec_len(cmd);
    }
    if cmd.len() < 2 || *place > cmd.len() - 2 {
        return Err(FlotonErr::UnexpectedByte(0));
    }
    let op = read_u16_le(cmd, *place);
    *place += 2;
    if op == OP_NORM_UPDATE {
        match Value::input_binary(cmd, place) {
            Ok(arg) => {
                data.write(TimePtr::make(Container::Val(arg), now), tid);
                Ok(())
            },
            Err(e) => Err(e),
        }
    } else {
        Err(FlotonErr::UnexpectedByte((op >> 8) as u8))
    }
}

/// Follows `segs[d..]` down from `data` with the read-side bookkeeping
/// of every slot it passes through: the slot's free list is swept under
/// `free_lim`, and `tid`'s observed time advances to the slot's current
/// timestamp.  The container the full path reaches is streamed into
/// `output`; a missing or empty step, or a leaf met early, reports the
/// packed key.
fn return_at(
    data: &mut Container,
    segs: &Vec<Vec<u8>>,
    d: usize,
    packed: &Vec<u8>,
    output: &mut Vec<u8>,
    tid: usize,
    free_lim: u32,
) -> (r: Result<(), FlotonErr>)
    requires
        old(data).map_wf(),
        old(data).deep_wf(),
        d < segs@.len(),
        tid < usize::MAX,
    ensures
        final(data).map_wf(),
        final(data).deep_wf(),
        final(data).entries().dom() =~= old(data).entries().dom(),
        forall|k: Seq<u8>|
            k != segs@[d as int]@ && old(data).entries().dom().contains(k) ==> #[trigger] (final(
            data
            ).entries()[k]) == old(data).entries()[k],
        match spec_descend(*old(data), segs.deep_view(), d as int) {
            None => (r matches Err(e) && e@ == FlotonErrView::ReturnNotFound(packed@)) && (final(
            output
            )@) == old(output)@,
            Some(c) => r is Ok && final(output)@ == old(output)@ + c.spec_wire(),
        },
    decreases segs@.len() - d,
{
    proof {
        vstd::std_specs::vec::axiom_spec_len(segs);
        assert(segs.deep_view().len() == segs@.len());
        assert(segs.deep_view()[d as int] == segs@[d as int]@);
    }
    let ghost pre = *data;
    match data {
        Container::CMap(mb) => {
            let m: &mut crate::hashtree::HashTree<Shared<Container>> = &mut **mb;
            let mut sh = match m.swap_value(&segs[d], crate::containers::MAP_KEY_ALIGN, Shared::new()) {
                Some(s) => s,
                None => {
                    return Err(FlotonErr::ReturnNotFound(clone_bytes(packed)));
                },
            };
            proof {
                assert(sh == pre.entries()[segs@[d as int]@]);
                assert(match pre.entries()[segs@[d as int]@].cur {
                    Some(tp) => tp.0.deep_wf(),
                    None => true,
                });
            }
            let ghost cur0 = sh.cur;
            sh.free_run(tid, free_lim);
            sh.update_time(tid);
            proof {
                assert(sh.cur == cur0);
            }
            let res: Result<(), FlotonErr> = match &mut sh.cur {
                Some(tp) => {
                    if d + 1 == segs.len() {
                        let leaf: &Container = &tp.0;
                        leaf.output_binary(output);
                        Ok(())
                    } else {
                        match &mut tp.0 {
                            Container::CMap(_) => return_at(
                                &mut tp.0,
                                segs,
                                d + 1,
                                packed,
                                output,
                                tid,
                                free_lim,
                            ),
                            Container::Val(_) => Err(
                                FlotonErr::ReturnNotFound(clone_bytes(packed)),
                            ),
                        }
                    }
                },
                None => Err(FlotonErr::ReturnNotFound(clone_bytes(packed))),
            };
            let back = m.swap_value(&segs[d], crate::containers::MAP_KEY_ALIGN, sh);
            proof {
                assert(back is Some);
                let sv = segs.deep_view();
                assert forall|k: Seq<u8>| #[trigger] data.entries().dom().contains(
                    k,
                ) implies match data.entries()[k].cur {
                    Some(tp2) => tp2.0.deep_wf(),
                    None => true,
                } by {
                    if k != sv[d as int] {
                        assert(data.entries()[k] == pre.entries()[k]);
                    }
                }
                let sh0 = pre.entries()[sv[d as int]];
                assert(pre.entry_val(sv[d as int]) == (match sh0.cur {
                    Some(tp2) => Some(tp2.0),
                    None => None::<Container>,
                }));
                match sh0.cur {
                    None => {
                        assert(spec_descend(pre, sv, d as int) is None);
                    },
                    Some(tp0) => {
                        assert(spec_descend(pre, sv, d as int) == spec_descend(
                            tp0.0,
                            sv,
                            d + 1,
                        ));
                        if d + 1 == segs@.len() {
                            assert(spec_descend(tp0.0, sv, d + 1) == Some(tp0.0));
                        } else {
                            if !(tp0.0 is CMap) {
                                assert(spec_descend(tp0.0, sv, d + 1) is None);
                            }
                        }
                    },
                }
            }
            res
        },
        Container::Val(_) => unreached(),
    }
}

/// Descends `segs[d..]`, creating or map-ifying every intermediate slot,
/// and installs `val` at the last segment.  After the call the whole
/// remaining path leads to `val`.
fn set_at(
    data: &mut Container,
    segs: &Vec<Vec<u8>>,
    d: usize,
    val: Container,
    map_slots: usize,
    tid: usize,
    now: u64,
)
    requires
        old(data).map_wf(),
        old(data).deep_wf(),
        val.deep_wf(),
        d < segs@.len(),
        tid < usize::MAX,
        map_slots > 0,
    ensures
        final(data).map_wf(),
        final(data).deep_wf(),
        final(data).entries().dom() =~= old(data).entries().dom().insert(segs@[d as int]@),
        forall|k: Seq<u8>|
            k != segs@[d as int]@ && old(data).entries().dom().contains(k) ==> #[trigger] (final(
            data
            ).entries()[k]) == old(data).entries()[k],
        spec_descend(*final(data), segs.deep_view(), d as int) == Some(val),
    decreases segs@.len() - d,
{
    proof {
        vstd::std_specs::vec::axiom_spec_len(segs);
        assert(segs.deep_view().len() == segs@.len());
        assert(segs.deep_view()[d as int] == segs@[d as int]@);
    }
    if d + 1 == segs.len() {
        data.set_map(&segs[d], val, tid, now);
        proof {
            let sv = segs.deep_view();
            assert(data.entry_val(sv[d as int]) == Some(val));
            assert(spec_descend(val, sv, d + 1) == Some(val));
            assert(spec_descend(*data, sv, d as int) == Some(val));
        }
        return ;
    }
    // make sure the slot holds a map before descending into it
    let needs = match data.get_map(&segs[d]) {
        Some(c) => match c {
            Container::CMap(_) => false,
            Container::Val(_) => true,
        },
        None => true,
    };
    if needs {
        data.set_map(&segs[d], Container::new_map(map_slots), tid, now);
    }
    let ghost mid = *data;
    match data {
        Container::CMap(mb) => {
            let m: &mut crate::hashtree::HashTree<Shared<Container>> = &mut **mb;
            let mut sh = match m.swap_value(&segs[d], crate::containers::MAP_KEY_ALIGN, Shared::new()) {
                Some(s) => s,
                None => unreached(),
            };
            proof {
                assert(sh == mid.entries()[segs@[d as int]@]);
                assert(match mid.entries()[segs@[d as int]@].cur {
                    Some(tp) => tp.0.deep_wf(),
                    None => true,
                });
                assert(sh.cur is Some);
                assert(sh.cur->Some_0.0 is CMap);
            }
            match &mut sh.cur {
                Some(tp) => {
                    set_at(&mut tp.0, segs, d + 1, val, map_slots, tid, now);
                },
                None => {
                    unreached::<()>()
                },
            }
            let back = m.swap_value(&segs[d], crate::containers::MAP_KEY_ALIGN, sh);
            proof {
                assert(back is Some);
                let sv = segs.deep_view();
                assert forall|k: Seq<u8>| #[trigger] data.entries().dom().contains(
                    k,
                ) implies match data.entries()[k].cur {
                    Some(tp2) => tp2.0.deep_wf(),
                    None => true,
                } by {
                    if k != sv[d as int] {
                        assert(data.entries()[k] == mid.entries()[k]);
                    }
                }
                assert(data.entry_val(sv[d as int]) is Some);
                assert(spec_descend(*data, sv, d as int) == spec_descend(
                    data.entry_val(sv[d as int])->Some_0,
                    sv,
                    d + 1,
                ));
            }
        },
        Container::Val(_) => unreached(),
    }
}

/// Descends `segs[d..]` and runs one atomic operation on the leaf the
/// path reaches; a missing slot reports the key, a map leaf reports a
/// non-atomic target.
fn atomic_at(
    data: &mut Container,
    segs: &Vec<Vec<u8>>,
    d: usize,
    place: &mut usize,
    cmd: &Vec<u8>,
    packed: &Vec<u8>,
    output: &mut Vec<u8>,
) -> (r: Result<(), FlotonErr>)
    requires
        old(data).map_wf(),
        old(data).deep_wf(),
        d < segs@.len(),
    ensures
        final(data).map_wf(),
        final(data).deep_wf(),
        final(data).entries().dom() =~= old(data).entries().dom(),
        forall|k: Seq<u8>|
            k != segs@[d as int]@ && old(data).entries().dom().contains(k) ==> #[trigger] (final(
            data
            ).entries()[k]) == old(data).entries()[k],
        ({
            let path = spec_descend(*old(data), segs.deep_view(), d as int);
            match path {
                None => (r matches Err(e) && e@ == FlotonErrView::ReturnNotFound(packed@))
                    && final(output)@ == old(output)@ && *final(place) == *old(place),
                Some(c) => if c is CMap {
                    (r matches Err(e) && e@ == FlotonErrView::TypeNotAtomic(
                        packed@,
                        VBIN_CMAP_BEGIN,
                    )) && final(output)@ == old(output)@ && *final(place) == *old(place)
                } else {
                    let (rr, nv, app, np) = spec_run_atomic(
                        cmd@,
                        *old(place) as int,
                        packed@,
                        c->Val_0,
                    );
                    &&& match (r, rr) {
                        (Ok(()), Ok(())) => true,
                        (Err(e), Err(ev)) => e@ == ev,
                        _ => false,
                    }
                    &&& final(output)@ == old(output)@ + app
                    &&& *final(place) as int == np
                    &&& spec_descend(*final(data), segs.deep_view(), d as int) == Some(
                        Container::Val(nv),
                    )
                },
            }
        }),
        *old(place) <= cmd@.len() ==> *final(place) <= cmd@.len(),
        r is Ok ==> *old(place) < *final(place),
    decreases segs@.len() - d,
{
    proof {
        vstd::std_specs::vec::axiom_spec_len(segs);
        assert(segs.deep_view().len() == segs@.len());
        assert(segs.deep_view()[d as int] == segs@[d as int]@);
    }
    let ghost pre = *data;
    match data {
        Container::CMap(mb) => {
            let m: &mut crate::hashtree::HashTree<Shared<Container>> = &mut **mb;
            let mut sh = match m.swap_value(&segs[d], crate::containers::MAP_KEY_ALIGN, Shared::new()) {
                Some(s) => s,
                None => {
                    return Err(FlotonErr::ReturnNotFound(clone_bytes(packed)));
                },
            };
            proof {
                assert(sh == pre.entries()[segs@[d as int]@]);
                assert(match pre.entries()[segs@[d as int]@].cur {
                    Some(tp) => tp.0.deep_wf(),
                    None => true,
                });
            }
            let res: Result<(), FlotonErr> = match &mut sh.cur {
                Some(tp) => {
                    if d + 1 == segs.len() {
                        match &mut tp.0 {
                            Container::Val(v) => run_atomic_operation(place, cmd, packed, v, output),
                            Container::CMap(_) => Err(
                                FlotonErr::TypeNotAtomic(clone_bytes(packed), VBIN_CMAP_BEGIN),
                            ),
                        }
                    } else {
                        match &mut tp.0 {
                            Container::CMap(_) => atomic_at(
                                &mut tp.0,
                                segs,
                                d + 1,
                                place,
                                cmd,
                                packed,
                                output,
                            ),
                            Container::Val(_) => Err(
                                FlotonErr::ReturnNotFound(clone_bytes(packed)),
                            ),
                        }
                    }
                },
                None => Err(FlotonErr::ReturnNotFound(clone_bytes(packed))),
            };
            let back = m.swap_value(&segs[d], crate::containers::MAP_KEY_ALIGN, sh);
            proof {
                assert(back is Some);
                let sv = segs.deep_view();
                assert forall|k: Seq<u8>| #[trigger] data.entries().dom().contains(
                    k,
                ) implies match data.entries()[k].cur {
                    Some(tp2) => tp2.0.deep_wf(),
                    None => true,
                } by {
                    if k != sv[d as int] {
                        assert(data.entries()[k] == pre.entries()[k]);
                    }
                }
                let sh0 = pre.entries()[sv[d as int]];
                assert(pre.entry_val(sv[d as int]) == (match sh0.cur {
                    Some(tp2) => Some(tp2.0),
                    None => None::<Container>,
                }));
                match sh0.cur {
                    None => {
                        assert(spec_descend(pre, sv, d as int) is None);
                    },
                    Some(tp0) => {
                        assert(spec_descend(pre, sv, d as int) == spec_descend(
                            tp0.0,
                            sv,
                            d + 1,
                        ));
                        if d + 1 == segs@.len() {
                            assert(spec_descend(tp0.0, sv, d + 1) == Some(tp0.0));
                            if !(tp0.0 is CMap) {
                                assert(data.entry_val(sv[d as int]) is Some);
                                assert(spec_descend(*data, sv, d as int) == spec_descend(
                                    data.entry_val(sv[d as int])->Some_0,
                                    sv,
                                    d + 1,
                                ));
                            }
                        } else {
                            if !(tp0.0 is CMap) {
                                assert(spec_descend(tp0.0, sv, d + 1) is None);
                            } else {
                                assert(data.entry_val(sv[d as int]) is Some);
                                assert(spec_descend(*data, sv, d as int) == spec_descend(
                                    data.entry_val(sv[d as int])->Some_0,
                                    sv,
                                    d + 1,
                                ));
                            }
                        }
                    },
                }
            }
            res
        },
        Container::Val(_) => unreached(),
    }
}

/// How a pure walk leaves the store: the slot of the first segment may
/// see registry bookkeeping, every other slot is kept exactly, and the
/// store stays well formed.
pub open spec fn spec_touch_step(pre: Container, post: Container, seg: Seq<u8>) -> bool {
    &&& post.map_wf()
    &&& post.deep_wf()
    &&& post.entries().dom() =~= pre.entries().dom()
    &&& forall|k: Seq<u8>|
        k != seg && pre.entries().dom().contains(k) ==> #[trigger] (post.entries()[k])
            == pre.entries()[k]
}

/// How a set leaves the store: the first segment's slot is created or
/// replaced, every other slot is kept exactly, and the whole path of
/// segments now leads to `v`.
pub open spec fn spec_set_step(
    pre: Container,
    post: Container,
    segs: Seq<Seq<u8>>,
    v: Container,
) -> bool {
    &&& post.map_wf()
    &&& post.deep_wf()
    &&& segs.len() > 0
    &&& post.entries().dom() =~= pre.entries().dom().insert(segs[0])
    &&& forall|k: Seq<u8>|
        k != segs[0] && pre.entries().dom().contains(k) ==> #[trigger] (post.entries()[k])
            == pre.entries()[k]
    &&& spec_descend(post, segs, 0) == Some(v)
}

/// How a successful atomic operation leaves the store: no slot appears
/// or disappears, every slot off the path's first segment is kept
/// exactly, and the path now leads to the leaf `nv`.
pub open spec fn spec_atomic_step(
    pre: Container,
    post: Container,
    segs: Seq<Seq<u8>>,
    nv: Value,
) -> bool {
    &&& post.map_wf()
    &&& post.deep_wf()
    &&& segs.len() > 0
    &&& post.entries().dom() =~= pre.entries().dom()
    &&& forall|k: Seq<u8>|
        k != segs[0] && pre.entries().dom().contains(k) ==> #[trigger] (post.entries()[k])
            == pre.entries()[k]
    &&& spec_descend(post, segs, 0) == Some(Container::Val(nv))
}

/// Whether `emitted` opens with exactly the bytes `w`.
pub open spec fn spec_emits(emitted: Seq<u8>, w: Seq<u8>) -> bool {
    emitted.len() >= w.len() && emitted.subrange(0, w.len() as int) == w
}

/// The interpreter, as a relation: interpreting `s` from offset `i`
/// against the store `pre` may end in the store `post` with exactly
/// `emitted` appended to the response.  Commands run in sequence until
/// the stop opcode or the end of the buffer; any error is emitted and
/// ends the request.  A read past the end of the buffer reports an
/// unexpected byte of 0.
pub open spec fn spec_cmds(
    s: Seq<u8>,
    i: int,
    pre: Container,
    post: Container,
    emitted: Seq<u8>,
) -> bool
    decreases s.len() - i,
{
    if i < 0 || i >= s.len() {
        post == pre && emitted == Seq::<u8>::empty()
    } else if s[i] == CMD_STOP {
        post == pre && emitted == Seq::<u8>::empty()
    } else if s[i] == CMD_RETURN_KV {
        match crate::keys::spec_parse_key(s, i + 1) {
            Some(kp) => {
                let segs = kp.0;
                let e = kp.1;
                if i + 1 < e <= s.len() {
                    if segs.len() == 0 {
                        spec_emits(emitted, pre.spec_wire()) && spec_cmds(
                            s,
                            e,
                            pre,
                            post,
                            emitted.skip(pre.spec_wire().len() as int),
                        )
                    } else {
                        match spec_descend(pre, segs, 0) {
                            Some(c) => spec_emits(emitted, c.spec_wire()) && (exists|
                                mid: Container,
                            |
                                #[trigger] spec_touch_step(pre, mid, segs[0]) && spec_cmds(
                                    s,
                                    e,
                                    mid,
                                    post,
                                    emitted.skip(c.spec_wire().len() as int),
                                )),
                            None => spec_touch_step(pre, post, segs[0]) && emitted
                                == spec_err_wire(
                                FlotonErrView::ReturnNotFound(s.subrange(i + 1, e)),
                            ),
                        }
                    }
                } else {
                    false
                }
            },
            None => post == pre && emitted == spec_err_wire(FlotonErrView::UnexpectedByte(0)),
        }
    } else if s[i] == CMD_SET_KV {
        match crate::keys::spec_parse_key(s, i + 1) {
            Some(kp) => {
                let segs = kp.0;
                let e = kp.1;
                if i + 1 < e <= s.len() {
                    let vp = Container::spec_cont_input(s, e);
                    match vp.0 {
                        Ok(mv) => if segs.len() == 0 {
                            post == pre && emitted == spec_err_wire(
                                FlotonErrView::UnexpectedByte(0),
                            )
                        } else if e < vp.1 <= s.len() {
                            exists|v: Container, mid: Container|
                                #[trigger] spec_set_step(pre, mid, segs, v) && v.deep_wf()
                                    && v.model() == mv && spec_cmds(s, vp.1, mid, post, emitted)
                        } else {
                            false
                        },
                        Err(ev) => post == pre && emitted == spec_err_wire(ev@),
                    }
                } else {
                    false
                }
            },
            None => post == pre && emitted == spec_err_wire(FlotonErrView::UnexpectedByte(0)),
        }
    } else if s[i] == CMD_OP_ATOMIC {
        match crate::keys::spec_parse_key(s, i + 1) {
            Some(kp) => {
                let segs = kp.0;
                let e = kp.1;
                let packed = s.subrange(i + 1, e);
                if i + 1 < e <= s.len() {
                    if segs.len() == 0 {
                        post == pre && emitted == spec_err_wire(
                            FlotonErrView::TypeNotAtomic(packed, VBIN_CMAP_BEGIN),
                        )
                    } else {
                        match spec_descend(pre, segs, 0) {
                            None => spec_touch_step(pre, post, segs[0]) && emitted
                                == spec_err_wire(FlotonErrView::ReturnNotFound(packed)),
                            Some(c) => if c is CMap {
                                spec_touch_step(pre, post, segs[0]) && emitted == spec_err_wire(
                                    FlotonErrView::TypeNotAtomic(packed, VBIN_CMAP_BEGIN),
                                )
                            } else {
                                let t = spec_run_atomic(s, e, packed, c->Val_0);
                                match t.0 {
                                    Ok(u) => if e < t.3 <= s.len() {
                                        spec_emits(emitted, t.2) && (exists|mid: Container|
                                            #[trigger] spec_atomic_step(pre, mid, segs, t.1)
                                                && spec_cmds(
                                                s,
                                                t.3,
                                                mid,
                                                post,
                                                emitted.skip(t.2.len() as int),
                                            ))
                                    } else {
                                        false
                                    },
                                    Err(ev) => spec_touch_step(pre, post, segs[0]) && emitted
                                        == t.2 + spec_err_wire(ev),
                                }
                            },
                        }
                    }
                } else {
                    false
                }
            },
            None => post == pre && emitted == spec_err_wire(FlotonErrView::UnexpectedByte(0)),
        }
    } else {
        post == pre && emitted == spec_err_wire(FlotonErrView::UnexpectedByte(s[i]))
    }
}

/// Chains one interpreted command onto the remaining ones: if
/// interpreting from `i0` against `d1` reaches the whole-request
/// relation, and one command takes `d1` to `d2` emitting `e1`, the
/// relation holds from the command's end against `d2`.
proof fn lemma_chain(
    s: Seq<u8>,
    i0: int,
    inext: int,
    d1: Container,
    d2: Container,
    e1: Seq<u8>,
    sofar: Seq<u8>,
    origin: Container,
)
    requires
        forall|post: Container, rest: Seq<u8>|
            #[trigger] spec_cmds(s, i0, d1, post, rest) ==> spec_cmds(
                s,
                0,
                origin,
                post,
                sofar + rest,
            ),
        forall|post: Container, rest: Seq<u8>|
            #[trigger] spec_cmds(s, inext, d2, post, rest) ==> spec_cmds(
                s,
                i0,
                d1,
                post,
                e1 + rest,
            ),
    ensures
        forall|post: Container, rest: Seq<u8>|
            #[trigger] spec_cmds(s, inext, d2, post, rest) ==> spec_cmds(
                s,
                0,
                origin,
                post,
                (sofar + e1) + rest,
            ),
{
    assert forall|post: Container, rest: Seq<u8>|
        #[trigger] spec_cmds(s, inext, d2, post, rest) implies spec_cmds(
        s,
        0,
        origin,
        post,
        (sofar + e1) + rest,
    ) by {
        assert(spec_cmds(s, i0, d1, post, e1 + rest));
        assert(spec_cmds(s, 0, origin, post, sofar + (e1 + rest)));
        assert(sofar + (e1 + rest) =~= (sofar + e1) + rest);
    }
}

/// One instance of the depth-0 return step.
proof fn lemma_one_return_root(
    s: Seq<u8>,
    i0: int,
    e: int,
    d1: Container,
    post: Container,
    rest: Seq<u8>,
)
    requires
        0 <= i0 < s.len(),
        s[i0] == CMD_RETURN_KV,
        crate::keys::spec_parse_key(s, i0 + 1) == Some((Seq::<Seq<u8>>::empty(), e)),
        i0 + 1 < e <= s.len(),
        spec_cmds(s, e, d1, post, rest),
    ensures
        spec_cmds(s, i0, d1, post, d1.spec_wire() + rest),
{
    let emitted = d1.spec_wire() + rest;
    let w = d1.spec_wire();
    let kp = crate::keys::spec_parse_key(s, i0 + 1)->Some_0;
    assert(s[i0] != CMD_STOP);
    assert(crate::keys::spec_parse_key(s, i0 + 1) is Some);
    assert(kp.0.len() == 0 && kp.1 == e);
    assert(emitted.subrange(0, w.len() as int) =~= w);
    assert(spec_emits(emitted, w));
    assert(emitted.skip(w.len() as int) =~= rest);
    assert(spec_cmds(s, e, d1, post, emitted.skip(w.len() as int)));
    assert(spec_cmds(s, i0, d1, post, emitted));
}

/// One instance of the found-return step.
proof fn lemma_one_return_found(
    s: Seq<u8>,
    i0: int,
    e: int,
    d1: Container,
    d2: Container,
    sv: Seq<Seq<u8>>,
    post: Container,
    rest: Seq<u8>,
)
    requires
        0 <= i0 < s.len(),
        s[i0] == CMD_RETURN_KV,
        crate::keys::spec_parse_key(s, i0 + 1) == Some((sv, e)),
        i0 + 1 < e <= s.len(),
        sv.len() > 0,
        spec_descend(d1, sv, 0) is Some,
        spec_touch_step(d1, d2, sv[0]),
        spec_cmds(s, e, d2, post, rest),
    ensures
        spec_cmds(s, i0, d1, post, spec_descend(d1, sv, 0)->Some_0.spec_wire() + rest),
{
    let c = spec_descend(d1, sv, 0)->Some_0;
    let emitted = c.spec_wire() + rest;
    let w = c.spec_wire();
    let kp = crate::keys::spec_parse_key(s, i0 + 1)->Some_0;
    assert(s[i0] != CMD_STOP);
    assert(crate::keys::spec_parse_key(s, i0 + 1) is Some);
    assert(kp.0 == sv && kp.1 == e);
    assert(emitted.subrange(0, w.len() as int) =~= w);
    assert(spec_emits(emitted, w));
    assert(emitted.skip(w.len() as int) =~= rest);
    assert(spec_touch_step(d1, d2, sv[0]));
    assert(spec_cmds(s, e, d2, post, emitted.skip(w.len() as int)));
    assert(spec_cmds(s, i0, d1, post, emitted));
}

/// One instance of the successful set step.
proof fn lemma_one_set_ok(
    s: Seq<u8>,
    i0: int,
    e: int,
    p: int,
    d1: Container,
    d2: Container,
    sv: Seq<Seq<u8>>,
    v: Container,
    post: Container,
    rest: Seq<u8>,
)
    requires
        0 <= i0 < s.len(),
        s[i0] == CMD_SET_KV,
        crate::keys::spec_parse_key(s, i0 + 1) == Some((sv, e)),
        i0 + 1 < e <= s.len(),
        sv.len() > 0,
        Container::spec_cont_input(s, e).0 == Ok::<crate::containers::ContView, FlotonErr>(
            v.model(),
        ),
        Container::spec_cont_input(s, e).1 == p,
        e < p <= s.len(),
        v.deep_wf(),
        spec_set_step(d1, d2, sv, v),
        spec_cmds(s, p, d2, post, rest),
    ensures
        spec_cmds(s, i0, d1, post, rest),
{
    let kp = crate::keys::spec_parse_key(s, i0 + 1)->Some_0;
    assert(s[i0] != CMD_STOP && s[i0] != CMD_RETURN_KV);
    assert(crate::keys::spec_parse_key(s, i0 + 1) is Some);
    assert(kp.0 == sv && kp.1 == e);
    let vp = Container::spec_cont_input(s, e);
    assert(vp.0 is Ok && vp.1 == p);
    assert(v.deep_wf());
    assert(v.model() == vp.0->Ok_0);
    assert(spec_set_step(d1, d2, sv, v));
    assert(spec_cmds(s, p, d2, post, rest));
    assert(spec_cmds(s, i0, d1, post, rest));
}

/// One instance of the successful atomic step.
proof fn lemma_one_atomic_ok(
    s: Seq<u8>,
    i0: int,
    e: int,
    d1: Container,
    d2: Container,
    sv: Seq<Seq<u8>>,
    post: Container,
    rest: Seq<u8>,
)
    requires
        0 <= i0 < s.len(),
        s[i0] == CMD_OP_ATOMIC,
        crate::keys::spec_parse_key(s, i0 + 1) == Some((sv, e)),
        i0 + 1 < e <= s.len(),
        sv.len() > 0,
        spec_descend(d1, sv, 0) matches Some(c) && !(c is CMap),
        ({
            let c = spec_descend(d1, sv, 0)->Some_0;
            let t = spec_run_atomic(s, e, s.subrange(i0 + 1, e), c->Val_0);
            &&& t.0 is Ok
            &&& e < t.3 <= s.len()
            &&& spec_atomic_step(d1, d2, sv, t.1)
            &&& spec_cmds(s, t.3, d2, post, rest)
        }),
    ensures
        ({
            let c = spec_descend(d1, sv, 0)->Some_0;
            let t = spec_run_atomic(s, e, s.subrange(i0 + 1, e), c->Val_0);
            spec_cmds(s, i0, d1, post, t.2 + rest)
        }),
{
    let c = spec_descend(d1, sv, 0)->Some_0;
    let t = spec_run_atomic(s, e, s.subrange(i0 + 1, e), c->Val_0);
    let emitted = t.2 + rest;
    let kp = crate::keys::spec_parse_key(s, i0 + 1)->Some_0;
    assert(s[i0] != CMD_STOP && s[i0] != CMD_RETURN_KV && s[i0] != CMD_SET_KV);
    assert(crate::keys::spec_parse_key(s, i0 + 1) is Some);
    assert(kp.0 == sv && kp.1 == e);
    assert(t.0 is Ok && e < t.3 <= s.len());
    assert(emitted.subrange(0, t.2.len() as int) =~= t.2);
    assert(spec_emits(emitted, t.2));
    assert(emitted.skip(t.2.len() as int) =~= rest);
    assert(spec_atomic_step(d1, d2, sv, t.1));
    assert(spec_cmds(s, t.3, d2, post, emitted.skip(t.2.len() as int)));
    assert(spec_cmds(s, i0, d1, post, emitted));
}

/// One step of the relation for a depth-0 return: the root map is
/// emitted and the store is untouched.
proof fn lemma_step_return_root(s: Seq<u8>, i0: int, e: int, d1: Container)
    requires
        0 <= i0 < s.len(),
        s[i0] == CMD_RETURN_KV,
        crate::keys::spec_parse_key(s, i0 + 1) matches Some(kp) && kp.0.len() == 0 && kp.1 == e,
        i0 + 1 < e <= s.len(),
    ensures
        forall|post: Container, rest: Seq<u8>|
            #[trigger] spec_cmds(s, e, d1, post, rest) ==> spec_cmds(
                s,
                i0,
                d1,
                post,
                d1.spec_wire() + rest,
            ),
{
    assert forall|post: Container, rest: Seq<u8>|
        #[trigger] spec_cmds(s, e, d1, post, rest) implies spec_cmds(
        s,
        i0,
        d1,
        post,
        d1.spec_wire() + rest,
    ) by {
        lemma_one_return_root(s, i0, e, d1, post, rest);
    }
}

/// One step of the relation for a found return: the located container
/// is emitted and the store sees only top-slot bookkeeping.
proof fn lemma_step_return_found(
    s: Seq<u8>,
    i0: int,
    e: int,
    d1: Container,
    d2: Container,
    sv: Seq<Seq<u8>>,
)
    requires
        0 <= i0 < s.len(),
        s[i0] == CMD_RETURN_KV,
        crate::keys::spec_parse_key(s, i0 + 1) == Some((sv, e)),
        i0 + 1 < e <= s.len(),
        sv.len() > 0,
        spec_descend(d1, sv, 0) is Some,
        spec_touch_step(d1, d2, sv[0]),
    ensures
        forall|post: Container, rest: Seq<u8>|
            #[trigger] spec_cmds(s, e, d2, post, rest) ==> spec_cmds(
                s,
                i0,
                d1,
                post,
                spec_descend(d1, sv, 0)->Some_0.spec_wire() + rest,
            ),
{
    let c = spec_descend(d1, sv, 0)->Some_0;
    assert forall|post: Container, rest: Seq<u8>|
        #[trigger] spec_cmds(s, e, d2, post, rest) implies spec_cmds(
        s,
        i0,
        d1,
        post,
        c.spec_wire() + rest,
    ) by {
        lemma_one_return_found(s, i0, e, d1, d2, sv, post, rest);
    }
}

/// One step of the relation for a successful set: the parsed value is
/// installed along the path and nothing is emitted.
proof fn lemma_step_set_ok(
    s: Seq<u8>,
    i0: int,
    e: int,
    p: int,
    d1: Container,
    d2: Container,
    sv: Seq<Seq<u8>>,
    v: Container,
)
    requires
        0 <= i0 < s.len(),
        s[i0] == CMD_SET_KV,
        crate::keys::spec_parse_key(s, i0 + 1) == Some((sv, e)),
        i0 + 1 < e <= s.len(),
        sv.len() > 0,
        Container::spec_cont_input(s, e).0 == Ok::<crate::containers::ContView, FlotonErr>(
            v.model(),
        ),
        Container::spec_cont_input(s, e).1 == p,
        e < p <= s.len(),
        v.deep_wf(),
        spec_set_step(d1, d2, sv, v),
    ensures
        forall|post: Container, rest: Seq<u8>|
            #[trigger] spec_cmds(s, p, d2, post, rest) ==> spec_cmds(s, i0, d1, post, rest),
{
    assert forall|post: Container, rest: Seq<u8>|
        #[trigger] spec_cmds(s, p, d2, post, rest) implies spec_cmds(s, i0, d1, post, rest) by {
        lemma_one_set_ok(s, i0, e, p, d1, d2, sv, v, post, rest);
    }
}

/// One step of the relation for a successful atomic operation: the
/// operation's answer is emitted and the leaf moves as the operation
/// says.
proof fn lemma_step_atomic_ok(
    s: Seq<u8>,
    i0: int,
    e: int,
    d1: Container,
    d2: Container,
    sv: Seq<Seq<u8>>,
)
    requires
        0 <= i0 < s.len(),
        s[i0] == CMD_OP_ATOMIC,
        crate::keys::spec_parse_key(s, i0 + 1) == Some((sv, e)),
        i0 + 1 < e <= s.len(),
        sv.len() > 0,
        spec_descend(d1, sv, 0) matches Some(c) && !(c is CMap),
        ({
            let c = spec_descend(d1, sv, 0)->Some_0;
            let t = spec_run_atomic(s, e, s.subrange(i0 + 1, e), c->Val_0);
            &&& t.0 is Ok
            &&& e < t.3 <= s.len()
            &&& spec_atomic_step(d1, d2, sv, t.1)
        }),
    ensures
        ({
            let c = spec_descend(d1, sv, 0)->Some_0;
            let t = spec_run_atomic(s, e, s.subrange(i0 + 1, e), c->Val_0);
            forall|post: Container, rest: Seq<u8>|
                #[trigger] spec_cmds(s, t.3, d2, post, rest) ==> spec_cmds(
                    s,
                    i0,
                    d1,
                    post,
                    t.2 + rest,
                )
        }),
{
    let c = spec_descend(d1, sv, 0)->Some_0;
    let t = spec_run_atomic(s, e, s.subrange(i0 + 1, e), c->Val_0);
    assert forall|post: Container, rest: Seq<u8>|
        #[trigger] spec_cmds(s, t.3, d2, post, rest) implies spec_cmds(
        s,
        i0,
        d1,
        post,
        t.2 + rest,
    ) by {
        lemma_one_atomic_ok(s, i0, e, d1, d2, sv, post, rest);
    }
}

/// One instance of the unknown-opcode halt.
proof fn lemma_one_halt_unknown(s: Seq<u8>, i0: int, d1: Container)
    requires
        0 <= i0 < s.len(),
        s[i0] != CMD_STOP,
        s[i0] != CMD_RETURN_KV,
        s[i0] != CMD_SET_KV,
        s[i0] != CMD_OP_ATOMIC,
    ensures
        spec_cmds(s, i0, d1, d1, spec_err_wire(FlotonErrView::UnexpectedByte(s[i0]))),
{
}

/// One instance of the unreadable-key halt.
proof fn lemma_one_halt_badkey(s: Seq<u8>, i0: int, d1: Container)
    requires
        0 <= i0 < s.len(),
        s[i0] == CMD_RETURN_KV || s[i0] == CMD_SET_KV || s[i0] == CMD_OP_ATOMIC,
        crate::keys::spec_parse_key(s, i0 + 1) is None,
    ensures
        spec_cmds(s, i0, d1, d1, spec_err_wire(FlotonErrView::UnexpectedByte(0))),
{
}

/// One instance of the unreadable-value halt of a set.
proof fn lemma_one_halt_set_err(s: Seq<u8>, i0: int, e: int, d1: Container)
    requires
        0 <= i0 < s.len(),
        s[i0] == CMD_SET_KV,
        crate::keys::spec_parse_key(s, i0 + 1) matches Some(kp) && kp.1 == e,
        i0 + 1 < e <= s.len(),
        Container::spec_cont_input(s, e).0 is Err,
    ensures
        spec_cmds(
            s,
            i0,
            d1,
            d1,
            spec_err_wire(Container::spec_cont_input(s, e).0->Err_0@),
        ),
{
    let kp = crate::keys::spec_parse_key(s, i0 + 1)->Some_0;
    assert(kp.1 == e);
}

/// One instance of the empty-key halt of a set.
proof fn lemma_one_halt_set_depth0(s: Seq<u8>, i0: int, e: int, d1: Container)
    requires
        0 <= i0 < s.len(),
        s[i0] == CMD_SET_KV,
        crate::keys::spec_parse_key(s, i0 + 1) matches Some(kp) && kp.0.len() == 0 && kp.1 == e,
        i0 + 1 < e <= s.len(),
        Container::spec_cont_input(s, e).0 is Ok,
    ensures
        spec_cmds(s, i0, d1, d1, spec_err_wire(FlotonErrView::UnexpectedByte(0))),
{
    let kp = crate::keys::spec_parse_key(s, i0 + 1)->Some_0;
    assert(kp.0.len() == 0 && kp.1 == e);
}

/// One instance of the empty-key halt of an atomic operation.
proof fn lemma_one_halt_atomic_depth0(s: Seq<u8>, i0: int, e: int, d1: Container)
    requires
        0 <= i0 < s.len(),
        s[i0] == CMD_OP_ATOMIC,
        crate::keys::spec_parse_key(s, i0 + 1) matches Some(kp) && kp.0.len() == 0 && kp.1 == e,
        i0 + 1 < e <= s.len(),
    ensures
        spec_cmds(
            s,
            i0,
            d1,
            d1,
            spec_err_wire(FlotonErrView::TypeNotAtomic(s.subrange(i0 + 1, e), VBIN_CMAP_BEGIN)),
        ),
{
    let kp = crate::keys::spec_parse_key(s, i0 + 1)->Some_0;
    assert(kp.0.len() == 0 && kp.1 == e);
}

/// One instance of the not-found return step: the packed key is echoed
/// and the walk's bookkeeping is the only change.
proof fn lemma_one_return_notfound(
    s: Seq<u8>,
    i0: int,
    e: int,
    d1: Container,
    d2: Container,
    sv: Seq<Seq<u8>>,
)
    requires
        0 <= i0 < s.len(),
        s[i0] == CMD_RETURN_KV,
        crate::keys::spec_parse_key(s, i0 + 1) == Some((sv, e)),
        i0 + 1 < e <= s.len(),
        sv.len() > 0,
        spec_descend(d1, sv, 0) is None,
        spec_touch_step(d1, d2, sv[0]),
    ensures
        spec_cmds(s, i0, d1, d2, spec_err_wire(FlotonErrView::ReturnNotFound(s.subrange(i0 + 1, e)))),
{
    let kp = crate::keys::spec_parse_key(s, i0 + 1)->Some_0;
    assert(kp.0 == sv && kp.1 == e);
}

/// One instance of a failing atomic step: the walk's bookkeeping is the
/// only change and the error is emitted after whatever the operation
/// answered.
proof fn lemma_one_atomic_err(
    s: Seq<u8>,
    i0: int,
    e: int,
    d1: Container,
    d2: Container,
    sv: Seq<Seq<u8>>,
    ew: Seq<u8>,
)
    requires
        0 <= i0 < s.len(),
        s[i0] == CMD_OP_ATOMIC,
        crate::keys::spec_parse_key(s, i0 + 1) == Some((sv, e)),
        i0 + 1 < e <= s.len(),
        sv.len() > 0,
        spec_touch_step(d1, d2, sv[0]),
        match spec_descend(d1, sv, 0) {
            None => ew == spec_err_wire(FlotonErrView::ReturnNotFound(s.subrange(i0 + 1, e))),
            Some(c) => if c is CMap {
                ew == spec_err_wire(
                    FlotonErrView::TypeNotAtomic(s.subrange(i0 + 1, e), VBIN_CMAP_BEGIN),
                )
            } else {
                let t = spec_run_atomic(s, e, s.subrange(i0 + 1, e), c->Val_0);
                t.0 is Err && ew == t.2 + spec_err_wire(t.0->Err_0)
            },
        },
    ensures
        spec_cmds(s, i0, d1, d2, ew),
{
    let kp = crate::keys::spec_parse_key(s, i0 + 1)->Some_0;
    assert(kp.0 == sv && kp.1 == e);
}

/// Interprets one request body against the store.  Commands run in
/// sequence until the stop opcode or the end of the buffer; each
/// command's answer is appended to `output`, and any error is appended
/// and ends the request.  What a call does is exactly `spec_cmds`: the
/// store moves from its old value to its final one, with the appended
/// bytes as the emission of the interpreted command sequence.
#[verifier::loop_isolation(false)]
#[verifier::rlimit(100)]
pub fn run_cmd(
    cmd: &Vec<u8>,
    data: &mut Container,
    output: &mut Vec<u8>,
    map_slots: usize,
    tid: usize,
    now: u64,
    free_lim: u32,
)
    requires
        old(data).map_wf(),
        old(data).deep_wf(),
        tid < usize::MAX,
        map_slots > 0,
    ensures
        final(data).map_wf(),
        final(data).deep_wf(),
        old(output)@.is_prefix_of(final(output)@),
        spec_cmds(
            cmd@,
            0,
            *old(data),
            *final(data),
            final(output)@.subrange(old(output)@.len() as int, final(output)@.len() as int),
        ),
{
    proof {
        vstd::std_specs::vec::axiom_spec_len(cmd);
    }
    let ghost s = cmd@;
    let ghost base = old(output)@.len() as int;
    let mut i: usize = 0;
    proof {
        assert forall|post: Container, rest: Seq<u8>|
            #[trigger] spec_cmds(s, i as int, *data, post, rest) implies spec_cmds(
            s,
            0,
            *old(data),
            post,
            output@.subrange(base, output@.len() as int) + rest,
        ) by {
            assert(output@.subrange(base, output@.len() as int) + rest =~= rest);
        }
    }
    loop
        invariant
            i <= s.len(),
            data.map_wf(),
            data.deep_wf(),
            old(output)@.is_prefix_of(output@),
            forall|post: Container, rest: Seq<u8>|
                #[trigger] spec_cmds(s, i as int, *data, post, rest) ==> spec_cmds(
                    s,
                    0,
                    *old(data),
                    post,
                    output@.subrange(base, output@.len() as int) + rest,
                ),
        decreases s.len() - i,
    {
        let ghost i0 = i as int;
        let ghost d1 = *data;
        let ghost sofar = output@.subrange(base, output@.len() as int);
        if i >= cmd.len() {
            proof {
                assert(spec_cmds(s, i0, d1, d1, Seq::<u8>::empty()));
                assert(sofar + Seq::<u8>::empty() =~= sofar);
                assert(spec_cmds(s, 0, *old(data), d1, sofar + Seq::<u8>::empty()));
            }
            return ;
        }
        let opcode = cmd[i];
        if opcode == CMD_STOP {
            proof {
                assert(spec_cmds(s, i0, d1, d1, Seq::<u8>::empty()));
                assert(sofar + Seq::<u8>::empty() =~= sofar);
                assert(spec_cmds(s, 0, *old(data), d1, sofar + Seq::<u8>::empty()));
            }
            return ;
        } else if opcode == CMD_RETURN_KV {
            i += 1;
            match parse_key(cmd, &mut i) {
                Some(kp) => {
                    let (segs, packed) = kp;
                    let ghost e = i as int;
                    if segs.len() == 0 {
                        let root: &Container = &*data;
                        root.output_binary(output);
                        proof {
                            lemma_step_return_root(s, i0, e, d1);
                            lemma_chain(s, i0, e, d1, d1, d1.spec_wire(), sofar, *old(data));
                            assert(output@.subrange(base, output@.len() as int) =~= sofar
                                + d1.spec_wire());
                        }
                    } else {
                        let r = return_at(data, &segs, 0, &packed, output, tid, free_lim);
                        match r {
                            Ok(()) => {
                                proof {
                                    let sv = segs.deep_view();
                                    assert(sv.len() == segs@.len());
                                    assert(sv[0] == segs@[0]@);
                                    assert(spec_descend(d1, sv, 0) is Some);
                                    assert(spec_touch_step(d1, *data, sv[0]));
                                    let c = spec_descend(d1, sv, 0)->Some_0;
                                    lemma_step_return_found(s, i0, e, d1, *data, sv);
                                    lemma_chain(
                                        s,
                                        i0,
                                        e,
                                        d1,
                                        *data,
                                        c.spec_wire(),
                                        sofar,
                                        *old(data),
                                    );
                                    assert(output@.subrange(base, output@.len() as int) =~= sofar
                                        + c.spec_wire());
                                }
                            },
                            Err(err) => {
                                err.output_binary(output);
                                proof {
                                    let sv = segs.deep_view();
                                    assert(sv.len() == segs@.len());
                                    assert(sv[0] == segs@[0]@);
                                    let ew = spec_err_wire(
                                        FlotonErrView::ReturnNotFound(s.subrange(i0 + 1, e)),
                                    );
                                    assert(err@ == FlotonErrView::ReturnNotFound(packed@));
                                    assert(spec_touch_step(d1, *data, sv[0]));
                                    lemma_one_return_notfound(s, i0, e, d1, *data, sv);
                                    assert(spec_cmds(s, 0, *old(data), *data, sofar + ew));
                                    assert(output@.subrange(base, output@.len() as int) =~= sofar
                                        + ew);
                                }
                                return ;
                            },
                        }
                    }
                },
                None => {
                    let err = FlotonErr::UnexpectedByte(0);
                    err.output_binary(output);
                    proof {
                        let ew = spec_err_wire(FlotonErrView::UnexpectedByte(0));
                        lemma_one_halt_badkey(s, i0, d1);
                        assert(spec_cmds(s, 0, *old(data), d1, sofar + ew));
                        assert(output@.subrange(base, output@.len() as int) =~= sofar + ew);
                    }
                    return ;
                },
            }
        } else if opcode == CMD_SET_KV {
            i += 1;
            match parse_key(cmd, &mut i) {
                Some(kp) => {
                    let (segs, _packed) = kp;
                    let ghost e = i as int;
                    match Container::input_binary(cmd, &mut i, tid, now) {
                        Ok(v) => {
                            let ghost p = i as int;
                            let ghost vval = v;
                            if segs.len() == 0 {
                                let err = FlotonErr::UnexpectedByte(0);
                                err.output_binary(output);
                                proof {
                                    let ew = spec_err_wire(FlotonErrView::UnexpectedByte(0));
                                    lemma_one_halt_set_depth0(s, i0, e, d1);
                                    assert(spec_cmds(s, 0, *old(data), d1, sofar + ew));
                                    assert(output@.subrange(base, output@.len() as int) =~= sofar
                                        + ew);
                                }
                                return ;
                            }
                            set_at(data, &segs, 0, v, map_slots, tid, now);
                            proof {
                                let sv = segs.deep_view();
                                assert(sv.len() == segs@.len());
                                assert(sv[0] == segs@[0]@);
                                assert(spec_set_step(d1, *data, sv, vval));
                                lemma_step_set_ok(s, i0, e, p, d1, *data, sv, vval);
                                lemma_chain(
                                    s,
                                    i0,
                                    p,
                                    d1,
                                    *data,
                                    Seq::<u8>::empty(),
                                    sofar,
                                    *old(data),
                                );
                                assert(output@.subrange(base, output@.len() as int) =~= sofar
                                    + Seq::<u8>::empty());
                            }
                        },
                        Err(err) => {
                            err.output_binary(output);
                            proof {
                                let ew = spec_err_wire(err@);
                                assert(err@ == Container::spec_cont_input(s, e).0->Err_0@);
                                lemma_one_halt_set_err(s, i0, e, d1);
                                assert(spec_cmds(s, 0, *old(data), d1, sofar + ew));
                                assert(output@.subrange(base, output@.len() as int) =~= sofar + ew);
                            }
                            return ;
                        },
                    }
                },
                None => {
                    let err = FlotonErr::UnexpectedByte(0);
                    err.output_binary(output);
                    proof {
                        let ew = spec_err_wire(FlotonErrView::UnexpectedByte(0));
                        lemma_one_halt_badkey(s, i0, d1);
                        assert(spec_cmds(s, 0, *old(data), d1, sofar + ew));
                        assert(output@.subrange(base, output@.len() as int) =~= sofar + ew);
                    }
                    return ;
                },
            }
        } else if opcode == CMD_OP_ATOMIC {
            i += 1;
            match parse_key(cmd, &mut i) {
                Some(kp) => {
                    let (segs, packed) = kp;
                    let ghost e = i as int;
                    if segs.len() == 0 {
                        let err = FlotonErr::TypeNotAtomic(packed, VBIN_CMAP_BEGIN);
                        err.output_binary(output);
                        proof {
                            let ew = spec_err_wire(
                                FlotonErrView::TypeNotAtomic(s.subrange(i0 + 1, e), VBIN_CMAP_BEGIN),
                            );
                            lemma_one_halt_atomic_depth0(s, i0, e, d1);
                            assert(spec_cmds(s, 0, *old(data), d1, sofar + ew));
                            assert(output@.subrange(base, output@.len() as int) =~= sofar + ew);
                        }
                        return ;
                    }
                    match atomic_at(data, &segs, 0, &mut i, cmd, &packed, output) {
                        Ok(()) => {
                            proof {
                                let sv = segs.deep_view();
                                assert(sv.len() == segs@.len());
                                assert(sv[0] == segs@[0]@);
                                let path = spec_descend(d1, sv, 0);
                                assert(path is Some && !(path->Some_0 is CMap));
                                let c = path->Some_0;
                                let t = spec_run_atomic(s, e, packed@, c->Val_0);
                                assert(t.0 is Ok);
                                assert(e < t.3 <= s.len());
                                assert(i as int == t.3);
                                assert(spec_atomic_step(d1, *data, sv, t.1));
                                lemma_step_atomic_ok(s, i0, e, d1, *data, sv);
                                lemma_chain(s, i0, t.3, d1, *data, t.2, sofar, *old(data));
                                assert(output@.subrange(base, output@.len() as int) =~= sofar
                                    + t.2);
                            }
                        },
                        Err(err) => {
                            err.output_binary(output);
                            proof {
                                let sv = segs.deep_view();
                                assert(sv.len() == segs@.len());
                                assert(sv[0] == segs@[0]@);
                                let path = spec_descend(d1, sv, 0);
                                let ew = output@.subrange(
                                    base + sofar.len() as int,
                                    output@.len() as int,
                                );
                                match path {
                                    None => {
                                        assert(err@ == FlotonErrView::ReturnNotFound(packed@));
                                        assert(ew =~= spec_err_wire(err@));
                                        assert(spec_touch_step(d1, *data, sv[0]));
                                    },
                                    Some(c) => {
                                        if c is CMap {
                                            assert(err@ == FlotonErrView::TypeNotAtomic(
                                                packed@,
                                                VBIN_CMAP_BEGIN,
                                            ));
                                            assert(ew =~= spec_err_wire(err@));
                                            assert(spec_touch_step(d1, *data, sv[0]));
                                        } else {
                                            let t = spec_run_atomic(s, e, packed@, c->Val_0);
                                            assert(t.0 is Err);
                                            assert(err@ == t.0->Err_0);
                                            assert(ew =~= t.2 + spec_err_wire(t.0->Err_0));
                                            assert(spec_touch_step(d1, *data, sv[0]));
                                        }
                                    },
                                }
                                lemma_one_atomic_err(s, i0, e, d1, *data, sv, ew);
                                assert(spec_cmds(s, 0, *old(data), *data, sofar + ew));
                                assert(output@.subrange(base, output@.len() as int) =~= sofar + ew);
                            }
                            return ;
                        },
                    }
                },
                None => {
                    let err = FlotonErr::UnexpectedByte(0);
                    err.output_binary(output);
                    proof {
                        let ew = spec_err_wire(FlotonErrView::UnexpectedByte(0));
                        lemma_one_halt_badkey(s, i0, d1);
                        assert(spec_cmds(s, 0, *old(data), d1, sofar + ew));
                        assert(output@.subrange(base, output@.len() as int) =~= sofar + ew);
                    }
                    return ;
                },
            }
        } else {
            let err = FlotonErr::UnexpectedByte(opcode);
            err.output_binary(output);
            proof {
                let ew = spec_err_wire(FlotonErrView::UnexpectedByte(s[i0]));
                lemma_one_halt_unknown(s, i0, d1);
                assert(spec_cmds(s, 0, *old(data), d1, sofar + ew));
                assert(output@.subrange(base, output@.len() as int) =~= sofar + ew);
            }
            return ;
        }
    }
}

} // verus!