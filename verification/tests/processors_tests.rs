use floton::processors::run_cmd;
use floton::containers::Container;
use floton::values::Value;
use floton::constants::CMD_STOP;
use floton::constants::CMD_RETURN_KV;
use floton::constants::CMD_SET_KV;
use floton::constants::VBIN_BOOL;
use floton::constants::VBIN_ERROR;
use floton::constants::VBIN_CMAP_BEGIN;
use floton::constants::VBIN_CMAP_END;
use floton::constants::CMAPB_KEY;
use floton::constants::ERR_RET_NOT_FOUND;

const SLOTS: usize = 40;

fn u64_at(buf: &[u8], off: usize) -> u64 {
    let mut w = [0u8; 8];
    w.copy_from_slice(&buf[off..off + 8]);
    u64::from_le_bytes(w)
}

#[test]
fn returnkv_works() {
    let mut cmd_buf = Vec::<u8>::new();
    let mut out_buf = Vec::<u8>::new();
    let key_buf: Vec<u8> = b"1234567_1234567_".to_vec();
    cmd_buf.push(CMD_RETURN_KV);
    let input_key_depth: u64 = 1;
    let input_key_len: u64 = 16;
    cmd_buf.extend_from_slice(&input_key_depth.to_le_bytes());
    cmd_buf.extend_from_slice(&input_key_len.to_le_bytes());
    cmd_buf.extend_from_slice(b"1234567_1234567_");
    cmd_buf.push(CMD_STOP);
    let val = Value::Bool(false);
    let mut cont = Container::new_map(14);
    cont.set_map(&key_buf, Container::Val(val), 0, 1);
    run_cmd(&cmd_buf, &mut cont, &mut out_buf, SLOTS, 0, 2, 3);
    assert_eq!(out_buf[0], VBIN_BOOL);
    assert_eq!(out_buf[1], 0);
}

#[test]
fn returnkv_nested_works() {
    let mut cmd_buf = Vec::<u8>::new();
    let mut out_buf = Vec::<u8>::new();
    let key_buf: Vec<u8> = b"1234567_1234567_".to_vec();
    cmd_buf.push(CMD_RETURN_KV);
    let input_key_depth: u64 = 2;
    let input_key_len: u64 = 16;
    cmd_buf.extend_from_slice(&input_key_depth.to_le_bytes());
    cmd_buf.extend_from_slice(&input_key_len.to_le_bytes());
    cmd_buf.extend_from_slice(b"1234567_1234567_");
    cmd_buf.extend_from_slice(&input_key_len.to_le_bytes());
    cmd_buf.extend_from_slice(b"1234567_1234567_");
    cmd_buf.push(CMD_STOP);

    let val = Value::Bool(false);
    let mut cont_inner = Container::new_map(10);
    cont_inner.set_map(&key_buf, Container::Val(val), 0, 1);
    let mut cont = Container::new_map(10);
    cont.set_map(&key_buf, cont_inner, 0, 2);

    run_cmd(&cmd_buf, &mut cont, &mut out_buf, SLOTS, 0, 3, 3);
    assert_eq!(out_buf[0], VBIN_BOOL);
    assert_eq!(out_buf[1], 0);
}

#[test]
fn setkv_works() {
    let mut cont = Container::new_map(10);
    let mut cmd_s_buf = Vec::<u8>::new();
    cmd_s_buf.push(CMD_SET_KV);
    let input_key_depth: u64 = 1;
    let input_key_len: u64 = 16;
    cmd_s_buf.extend_from_slice(&input_key_depth.to_le_bytes());
    cmd_s_buf.extend_from_slice(&input_key_len.to_le_bytes());
    cmd_s_buf.extend_from_slice(b"1234567_1234567_");
    cmd_s_buf.push(VBIN_BOOL);
    cmd_s_buf.push(1);

    let mut out_buf = Vec::<u8>::new();
    cmd_s_buf.push(CMD_RETURN_KV);
    cmd_s_buf.extend_from_slice(&input_key_depth.to_le_bytes());
    cmd_s_buf.extend_from_slice(&input_key_len.to_le_bytes());
    cmd_s_buf.extend_from_slice(b"1234567_1234567_");
    cmd_s_buf.push(CMD_STOP);
    run_cmd(&cmd_s_buf, &mut cont, &mut out_buf, SLOTS, 0, 1, 3);
    assert_eq!(out_buf[0], VBIN_BOOL);
    assert_eq!(out_buf[1], 1);
}

#[test]
fn setkv_nested_works() {
    let mut cont = Container::new_map(50);
    let mut cmd_s_buf = Vec::<u8>::new();
    cmd_s_buf.push(CMD_SET_KV);
    let input_key_depth: u64 = 2;
    let input_key_len: u64 = 16;
    cmd_s_buf.extend_from_slice(&input_key_depth.to_le_bytes());
    cmd_s_buf.extend_from_slice(&input_key_len.to_le_bytes());
    cmd_s_buf.extend_from_slice(b"1234567_1234567_");
    cmd_s_buf.extend_from_slice(&input_key_len.to_le_bytes());
    cmd_s_buf.extend_from_slice(b"1234567_1234567_");
    cmd_s_buf.push(VBIN_BOOL);
    cmd_s_buf.push(1);

    let mut out_buf = Vec::<u8>::new();
    cmd_s_buf.push(CMD_RETURN_KV);
    cmd_s_buf.extend_from_slice(&input_key_depth.to_le_bytes());
    cmd_s_buf.extend_from_slice(&input_key_len.to_le_bytes());
    cmd_s_buf.extend_from_slice(b"1234567_1234567_");
    cmd_s_buf.extend_from_slice(&input_key_len.to_le_bytes());
    cmd_s_buf.extend_from_slice(b"1234567_1234567_");
    cmd_s_buf.push(CMD_STOP);
    run_cmd(&cmd_s_buf, &mut cont, &mut out_buf, SLOTS, 0, 1, 3);
    assert_eq!(out_buf[0], VBIN_BOOL);
    assert_eq!(out_buf[1], 1);
}

#[test]
fn setkv_map_works() {
    let mut cont = Container::new_map(10);
    let mut cmds = Vec::<u8>::new();
    let key1 = [90, 55, 44, 22, 90, 55, 33, 22];
    let keym = [22, 55, 33, 76, 54, 22, 12, 98];
    let key_depth_one: u64 = 1;
    let key_depth_two: u64 = 2;
    let key_length: u64 = 8;
    cmds.push(CMD_SET_KV);
    cmds.extend_from_slice(&key_depth_one.to_le_bytes());
    cmds.extend_from_slice(&key_length.to_le_bytes());
    cmds.extend_from_slice(&key1);
    cmds.push(VBIN_CMAP_BEGIN);
    cmds.push(CMAPB_KEY);
    cmds.extend_from_slice(&key_length.to_le_bytes());
    cmds.extend_from_slice(&keym);
    cmds.push(VBIN_BOOL);
    cmds.push(1);
    cmds.push(VBIN_CMAP_END);
    cmds.push(CMD_RETURN_KV);
    cmds.extend_from_slice(&key_depth_two.to_le_bytes());
    cmds.extend_from_slice(&key_length.to_le_bytes());
    cmds.extend_from_slice(&key1);
    cmds.extend_from_slice(&key_length.to_le_bytes());
    cmds.extend_from_slice(&keym);
    cmds.push(CMD_STOP);

    let mut out_buf = Vec::<u8>::new();
    run_cmd(&cmds, &mut cont, &mut out_buf, SLOTS, 0, 1, 3);
    assert_eq!(out_buf[0], VBIN_BOOL);
    assert_eq!(out_buf[1], 1);
}

#[test]
fn ret_not_found_works() {
    let mut cont = Container::new_map(10);
    let key1 = [90, 55, 44, 22, 90, 55, 33, 22];
    let keym = [22, 55, 33, 76, 54, 22, 12, 98];
    let key1_n = u64::from_le_bytes(key1);
    let keym_n = u64::from_le_bytes(keym);
    let key_depth_two: u64 = 2;
    let key_length: u64 = 8;
    let mut cmds = Vec::<u8>::new();
    cmds.push(CMD_RETURN_KV);
    cmds.extend_from_slice(&key_depth_two.to_le_bytes());
    cmds.extend_from_slice(&key_length.to_le_bytes());
    cmds.extend_from_slice(&key1);
    cmds.extend_from_slice(&key_length.to_le_bytes());
    cmds.extend_from_slice(&keym);
    cmds.push(CMD_STOP);

    let mut out_buf = Vec::<u8>::new();
    run_cmd(&cmds, &mut cont, &mut out_buf, SLOTS, 0, 1, 3);
    assert_eq!(out_buf.len(), 42);
    assert_eq!(out_buf[0], VBIN_ERROR);
    assert_eq!(out_buf[1], ERR_RET_NOT_FOUND);
    assert_eq!(u64_at(&out_buf, 2), 2);
    assert_eq!(u64_at(&out_buf, 10), 8);
    assert_eq!(u64_at(&out_buf, 18), key1_n);
    assert_eq!(u64_at(&out_buf, 26), 8);
    assert_eq!(u64_at(&out_buf, 34), keym_n);
}
