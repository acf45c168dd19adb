use floton::processors::run_cmd;
use floton::containers::Container;
use floton::constants::CMD_STOP;
use floton::constants::CMD_RETURN_KV;
use floton::constants::CMD_SET_KV;
use floton::constants::CMD_OP_ATOMIC;
use floton::constants::OP_ATOMIC_ADD;
use floton::constants::OP_ATOMIC_ADD_FETCH;
use floton::constants::OP_ATOMIC_COND_SWAP;
use floton::constants::VBIN_BOOL;
use floton::constants::VBIN_ABOOL;
use floton::constants::VBIN_UINT;
use floton::constants::VBIN_AUINT;
use floton::constants::VBIN_ERROR;
use floton::constants::VBIN_CMAP_BEGIN;
use floton::constants::VBIN_CMAP_END;
use floton::constants::CMAPB_KEY;
use floton::constants::ERR_UNEXPECT_BYTE;

const SLOTS: usize = 40;

fn u64_at(buf: &[u8], off: usize) -> u64 {
    let mut w = [0u8; 8];
    w.copy_from_slice(&buf[off..off + 8]);
    u64::from_le_bytes(w)
}

fn push_key1(cmds: &mut Vec<u8>, seg: &[u8]) {
    cmds.extend_from_slice(&1u64.to_le_bytes());
    cmds.extend_from_slice(&(seg.len() as u64).to_le_bytes());
    cmds.extend_from_slice(seg);
}

#[test]
fn scenario_set_get_one_scalar() {
    // set a boolean under a two-byte key, then read it back
    let mut store = Container::new_map(100);
    let mut set_cmd = Vec::<u8>::new();
    set_cmd.push(CMD_SET_KV);
    push_key1(&mut set_cmd, &[33, 55]);
    set_cmd.push(VBIN_BOOL);
    set_cmd.push(1);
    set_cmd.push(CMD_STOP);
    let mut out1 = Vec::<u8>::new();
    run_cmd(&set_cmd, &mut store, &mut out1, SLOTS, 0, 1, 3);
    assert!(out1.is_empty());

    let mut get_cmd = Vec::<u8>::new();
    get_cmd.push(CMD_RETURN_KV);
    push_key1(&mut get_cmd, &[33, 55]);
    get_cmd.push(CMD_STOP);
    let mut out2 = Vec::<u8>::new();
    run_cmd(&get_cmd, &mut store, &mut out2, SLOTS, 0, 2, 3);
    assert_eq!(out2, vec![VBIN_BOOL, 1]);
}

#[test]
fn scenario_nested_map_wire_form() {
    // a map streamed in wire form lands as a nested map reachable by a
    // two-segment key
    let key1 = [90, 55, 44, 22, 90, 55, 33, 22];
    let keym = [22, 55, 33, 76, 54, 22, 12, 98];
    let mut store = Container::new_map(100);
    let mut cmds = Vec::<u8>::new();
    cmds.push(CMD_SET_KV);
    push_key1(&mut cmds, &key1);
    cmds.push(VBIN_CMAP_BEGIN);
    cmds.push(CMAPB_KEY);
    cmds.extend_from_slice(&8u64.to_le_bytes());
    cmds.extend_from_slice(&keym);
    cmds.push(VBIN_BOOL);
    cmds.push(1);
    cmds.push(VBIN_CMAP_END);
    cmds.push(CMD_RETURN_KV);
    cmds.extend_from_slice(&2u64.to_le_bytes());
    cmds.extend_from_slice(&8u64.to_le_bytes());
    cmds.extend_from_slice(&key1);
    cmds.extend_from_slice(&8u64.to_le_bytes());
    cmds.extend_from_slice(&keym);
    cmds.push(CMD_STOP);
    let mut out = Vec::<u8>::new();
    run_cmd(&cmds, &mut store, &mut out, SLOTS, 0, 1, 3);
    assert_eq!(out, vec![VBIN_BOOL, 1]);
}

#[test]
fn scenario_atomic_fetch_add() {
    // a bare add answers nothing; an add-fetch answers the previous value
    let key = [7, 7, 7, 7, 7, 7, 7, 7];
    let mut store = Container::new_map(100);
    let mut set_cmd = Vec::<u8>::new();
    set_cmd.push(CMD_SET_KV);
    push_key1(&mut set_cmd, &key);
    set_cmd.push(VBIN_AUINT);
    set_cmd.extend_from_slice(&1u64.to_le_bytes());
    set_cmd.push(CMD_STOP);
    let mut out0 = Vec::<u8>::new();
    run_cmd(&set_cmd, &mut store, &mut out0, SLOTS, 0, 1, 3);
    assert!(out0.is_empty());

    let mut add_cmd = Vec::<u8>::new();
    add_cmd.push(CMD_OP_ATOMIC);
    push_key1(&mut add_cmd, &key);
    add_cmd.extend_from_slice(&OP_ATOMIC_ADD.to_le_bytes());
    add_cmd.push(VBIN_UINT);
    add_cmd.extend_from_slice(&3u64.to_le_bytes());
    add_cmd.push(CMD_STOP);
    let mut out1 = Vec::<u8>::new();
    run_cmd(&add_cmd, &mut store, &mut out1, SLOTS, 0, 2, 3);
    assert!(out1.is_empty());

    let mut fetch_cmd = Vec::<u8>::new();
    fetch_cmd.push(CMD_OP_ATOMIC);
    push_key1(&mut fetch_cmd, &key);
    fetch_cmd.extend_from_slice(&OP_ATOMIC_ADD_FETCH.to_le_bytes());
    fetch_cmd.push(VBIN_UINT);
    fetch_cmd.extend_from_slice(&2u64.to_le_bytes());
    fetch_cmd.push(CMD_STOP);
    let mut out2 = Vec::<u8>::new();
    run_cmd(&fetch_cmd, &mut store, &mut out2, SLOTS, 0, 3, 3);
    assert_eq!(out2[0], VBIN_UINT);
    assert_eq!(u64_at(&out2, 1), 4);

    // the leaf now holds 6
    let key_vec: Vec<u8> = key.to_vec();
    let leaf = store.get_map(&key_vec).unwrap();
    assert_eq!(leaf.value().unwrap().to_uint(), 6);
}

#[test]
fn scenario_cond_swap_success_then_failure() {
    let key = [9, 9, 9, 9, 9, 9, 9, 9];
    let mut store = Container::new_map(100);
    let mut set_cmd = Vec::<u8>::new();
    set_cmd.push(CMD_SET_KV);
    push_key1(&mut set_cmd, &key);
    set_cmd.push(VBIN_ABOOL);
    set_cmd.push(0);
    set_cmd.push(CMD_STOP);
    let mut out0 = Vec::<u8>::new();
    run_cmd(&set_cmd, &mut store, &mut out0, SLOTS, 0, 1, 3);
    assert!(out0.is_empty());

    let mut swap_cmd = Vec::<u8>::new();
    swap_cmd.push(CMD_OP_ATOMIC);
    push_key1(&mut swap_cmd, &key);
    swap_cmd.extend_from_slice(&OP_ATOMIC_COND_SWAP.to_le_bytes());
    swap_cmd.push(VBIN_BOOL);
    swap_cmd.push(0);
    swap_cmd.push(VBIN_BOOL);
    swap_cmd.push(1);
    swap_cmd.push(CMD_STOP);
    let mut out1 = Vec::<u8>::new();
    run_cmd(&swap_cmd, &mut store, &mut out1, SLOTS, 0, 2, 3);
    assert_eq!(out1, vec![VBIN_BOOL, 1, VBIN_BOOL, 0]);

    let mut out2 = Vec::<u8>::new();
    run_cmd(&swap_cmd, &mut store, &mut out2, SLOTS, 0, 3, 3);
    assert_eq!(out2, vec![VBIN_BOOL, 0, VBIN_BOOL, 1]);
}

#[test]
fn scenario_unexpected_byte_halts() {
    // an undefined opcode mid-stream reports itself and stops the
    // interpretation of the rest of the body
    let mut store = Container::new_map(100);
    let mut cmds = Vec::<u8>::new();
    cmds.push(CMD_SET_KV);
    push_key1(&mut cmds, &[1, 2]);
    cmds.push(VBIN_BOOL);
    cmds.push(1);
    cmds.push(77);  // undefined opcode
    cmds.push(CMD_SET_KV);
    push_key1(&mut cmds, &[3, 4]);
    cmds.push(VBIN_BOOL);
    cmds.push(1);
    cmds.push(CMD_STOP);
    let mut out = Vec::<u8>::new();
    run_cmd(&cmds, &mut store, &mut out, SLOTS, 0, 1, 3);
    assert_eq!(out, vec![VBIN_ERROR, ERR_UNEXPECT_BYTE, 77]);

    // the command after the bad byte never ran
    let k2: Vec<u8> = vec![3, 4];
    assert!(store.get_map(&k2).is_none());
    let k1: Vec<u8> = vec![1, 2];
    assert!(store.get_map(&k1).is_some());
}

#[test]
fn scenario_empty_request_halts_immediately() {
    let mut store = Container::new_map(100);
    let cmds = Vec::<u8>::new();
    let mut out = Vec::<u8>::new();
    run_cmd(&cmds, &mut store, &mut out, SLOTS, 0, 1, 3);
    assert!(out.is_empty());
}

#[test]
fn scenario_empty_key_returns_root_map() {
    let mut store = Container::new_map(100);
    let mut cmds = Vec::<u8>::new();
    cmds.push(CMD_RETURN_KV);
    cmds.extend_from_slice(&0u64.to_le_bytes());
    cmds.push(CMD_STOP);
    let mut out = Vec::<u8>::new();
    run_cmd(&cmds, &mut store, &mut out, SLOTS, 0, 1, 3);
    // an empty root map streams as just its begin and end tags
    assert_eq!(out, vec![VBIN_CMAP_BEGIN, VBIN_CMAP_END]);
}

#[test]
fn scenario_set_overwrites_map_with_val_and_val_with_map() {
    let key = [5, 5, 5, 5, 5, 5, 5, 5];
    let keym = [6, 6, 6, 6, 6, 6, 6, 6];
    let mut store = Container::new_map(100);

    // put a map at the key
    let mut set_map_cmd = Vec::<u8>::new();
    set_map_cmd.push(CMD_SET_KV);
    push_key1(&mut set_map_cmd, &key);
    set_map_cmd.push(VBIN_CMAP_BEGIN);
    set_map_cmd.push(CMAPB_KEY);
    set_map_cmd.extend_from_slice(&8u64.to_le_bytes());
    set_map_cmd.extend_from_slice(&keym);
    set_map_cmd.push(VBIN_BOOL);
    set_map_cmd.push(1);
    set_map_cmd.push(VBIN_CMAP_END);
    set_map_cmd.push(CMD_STOP);
    let mut out0 = Vec::<u8>::new();
    run_cmd(&set_map_cmd, &mut store, &mut out0, SLOTS, 0, 1, 3);
    assert!(out0.is_empty());

    // overwrite the map with a plain value
    let mut set_val_cmd = Vec::<u8>::new();
    set_val_cmd.push(CMD_SET_KV);
    push_key1(&mut set_val_cmd, &key);
    set_val_cmd.push(VBIN_UINT);
    set_val_cmd.extend_from_slice(&42u64.to_le_bytes());
    set_val_cmd.push(CMD_STOP);
    let mut out1 = Vec::<u8>::new();
    run_cmd(&set_val_cmd, &mut store, &mut out1, SLOTS, 0, 2, 3);
    assert!(out1.is_empty());
    let key_vec: Vec<u8> = key.to_vec();
    assert_eq!(store.get_map(&key_vec).unwrap().value().unwrap().to_uint(), 42);

    // a nested set turns the value back into a map
    let mut nest_cmd = Vec::<u8>::new();
    nest_cmd.push(CMD_SET_KV);
    nest_cmd.extend_from_slice(&2u64.to_le_bytes());
    nest_cmd.extend_from_slice(&8u64.to_le_bytes());
    nest_cmd.extend_from_slice(&key);
    nest_cmd.extend_from_slice(&8u64.to_le_bytes());
    nest_cmd.extend_from_slice(&keym);
    nest_cmd.push(VBIN_UINT);
    nest_cmd.extend_from_slice(&7u64.to_le_bytes());
    nest_cmd.push(CMD_STOP);
    let mut out2 = Vec::<u8>::new();
    run_cmd(&nest_cmd, &mut store, &mut out2, SLOTS, 0, 3, 3);
    assert!(out2.is_empty());
    let keym_vec: Vec<u8> = keym.to_vec();
    let inner = store.get_map(&key_vec).unwrap();
    assert_eq!(inner.get_map(&keym_vec).unwrap().value().unwrap().to_uint(), 7);
}

#[test]
fn scenario_unknown_first_opcode_reports_and_halts() {
    let mut store = Container::new_map(100);
    let cmds: Vec<u8> = vec![201];
    let mut out = Vec::<u8>::new();
    run_cmd(&cmds, &mut store, &mut out, SLOTS, 0, 1, 3);
    assert_eq!(out, vec![VBIN_ERROR, ERR_UNEXPECT_BYTE, 201]);
}

#[test]
fn scenario_any_error_ends_request() {
    // a not-found return reports its key and ends the request: the set
    // command after it never runs
    let mut store = Container::new_map(100);
    let mut cmds = Vec::<u8>::new();
    cmds.push(CMD_RETURN_KV);
    push_key1(&mut cmds, &[8, 8]);
    cmds.push(CMD_SET_KV);
    push_key1(&mut cmds, &[4, 4]);
    cmds.push(VBIN_BOOL);
    cmds.push(1);
    cmds.push(CMD_STOP);
    let mut out = Vec::<u8>::new();
    run_cmd(&cmds, &mut store, &mut out, SLOTS, 0, 1, 3);
    assert_eq!(out[0], VBIN_ERROR);
    let k2: Vec<u8> = vec![4, 4];
    assert!(store.get_map(&k2).is_none());
}
