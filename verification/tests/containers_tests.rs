use floton::containers::Container;
use floton::values::Value;
use floton::constants::VBIN_CMAP_BEGIN;
use floton::constants::VBIN_CMAP_END;
use floton::constants::VBIN_BOOL;
use floton::constants::VBIN_UINT;
use floton::constants::CMAPB_KEY;

fn aligned_key(words: &[u64]) -> Vec<u8> {
    let mut v = Vec::new();
    for w in words {
        v.extend_from_slice(&w.to_le_bytes());
    }
    v
}

fn u64_at(buf: &[u8], off: usize) -> u64 {
    let mut w = [0u8; 8];
    w.copy_from_slice(&buf[off..off + 8]);
    u64::from_le_bytes(w)
}

#[test]
fn set_map_works() {
    let mut map = Container::new_map(20);
    let key = aligned_key(&[556, 332, 776, 4433]);
    let val = Container::Val(Value::UInt(10));
    map.set_map(&key, val, 0, 1);
    match map.get_map(&key) {
        Some(rv) => assert_eq!(rv.value().unwrap().to_uint(), 10),
        None => panic!("key not found in map"),
    }
}

#[test]
fn get_map_shared_works() {
    let mut map = Container::new_map(20);
    let key = aligned_key(&[556, 332, 776, 4433]);
    let val = Container::Val(Value::UInt(10));
    map.set_map(&key, val, 0, 1);
    match map.get_map_shared(&key) {
        Some(rsh) => match rsh.current_ref() {
            Some(tp) => assert_eq!(tp.0.value().unwrap().to_uint(), 10),
            None => panic!("Unexpected empty shared slot"),
        },
        None => panic!("key not found in map"),
    }
}

#[test]
fn get_map_works() {
    let mut map = Container::new_map(20);
    let key = aligned_key(&[556, 332, 776, 4433]);
    let val = Container::Val(Value::UInt(10));
    map.set_map(&key, val, 0, 1);
    match map.get_map(&key) {
        Some(rv) => assert_eq!(rv.value().unwrap().to_uint(), 10),
        None => panic!("key not found in map"),
    }
}

#[test]
fn create_set_map_works() {
    let mut map = Container::new_map(20);
    let key = aligned_key(&[556, 332, 776, 4433]);
    let key2 = aligned_key(&[5456, 3232, 7176, 41433]);
    {
        let created = map.create_set_map(&key, 30, 0, 1);
        match created {
            Container::Val(_) => panic!("Expected a map to be returned"),
            Container::CMap(_) => (),
        }
    }
    // write into the created inner map, then reach it again through the
    // outer key: create_set_map must return the same map, not a new one
    {
        match map.get_map_shared(&key) {
            Some(_) => (),
            None => panic!("inner map is missing"),
        }
    }
    // place a value inside the nested map by descending again
    let mut inner_holder = Container::new_map(20);
    inner_holder.set_map(&key2, Container::Val(Value::UInt(10)), 0, 2);
    map.set_map(&key, inner_holder, 0, 3);
    let again = map.create_set_map(&key, 30, 0, 4);
    match again.get_map(&key2) {
        Some(val_c) => assert_eq!(val_c.value().unwrap().to_uint(), 10),
        None => panic!("Expected to find the nested key"),
    }
}

#[test]
fn tdata_container_output() {
    let key1 = aligned_key(&[556, 332, 776, 4433]);
    let key2 = aligned_key(&[5456, 3232, 7176, 41433]);

    let mut map = Container::new_map(10);
    map.set_map(&key1, Container::Val(Value::Bool(false)), 0, 1);
    map.set_map(&key2, Container::Val(Value::Bool(false)), 0, 2);
    let mut out_vec = vec![];
    map.output_binary(&mut out_vec);
    // begin + two entries of (marker + length + 32 key bytes + 2 value
    // bytes) + end
    assert_eq!(out_vec.len(), 2 + 2 * (1 + 8 + 32 + 2));
    assert_eq!(out_vec[0], VBIN_CMAP_BEGIN);
    assert_eq!(out_vec[1], CMAPB_KEY);
    assert_eq!(u64_at(&out_vec, 2), 32);
    assert_eq!(out_vec[42], VBIN_BOOL);
    assert_eq!(out_vec[44], CMAPB_KEY);
    assert_eq!(u64_at(&out_vec, 45), 32);
    assert_eq!(out_vec[85], VBIN_BOOL);
    assert_eq!(out_vec[out_vec.len() - 1], VBIN_CMAP_END);
}

#[test]
fn tdata_overwrite_output() {
    let key1 = aligned_key(&[556, 332, 776, 4433]);
    let key2 = aligned_key(&[556, 332, 776, 4433]);

    let mut map = Container::new_map(10);
    map.set_map(&key1, Container::Val(Value::UInt(1)), 0, 1);
    map.set_map(&key2, Container::Val(Value::UInt(2)), 0, 2);
    let mut out_vec = vec![];
    map.output_binary(&mut out_vec);
    // the same key written twice keeps one entry, with the later value
    assert_eq!(out_vec.len(), 2 + (1 + 8 + 32 + 9));
    assert_eq!(out_vec[0], VBIN_CMAP_BEGIN);
    assert_eq!(out_vec[1], CMAPB_KEY);
    assert_eq!(u64_at(&out_vec, 2), 32);
    assert_eq!(u64_at(&out_vec, 10), 556);
    assert_eq!(u64_at(&out_vec, 18), 332);
    assert_eq!(u64_at(&out_vec, 26), 776);
    assert_eq!(u64_at(&out_vec, 34), 4433);
    assert_eq!(out_vec[42], VBIN_UINT);
    assert_eq!(u64_at(&out_vec, 43), 2);
    assert_eq!(out_vec[out_vec.len() - 1], VBIN_CMAP_END);
}

#[test]
fn tdata_container_input() {
    let key1 = aligned_key(&[556, 332, 776, 4433]);
    let key2 = aligned_key(&[5456, 3232, 7176, 41433]);

    let mut input_bytes = Vec::<u8>::new();
    let input_key_len: u64 = 32;
    input_bytes.push(VBIN_CMAP_BEGIN);
    input_bytes.push(CMAPB_KEY);
    input_bytes.extend_from_slice(&input_key_len.to_le_bytes());
    input_bytes.extend_from_slice(&key1);
    input_bytes.push(VBIN_UINT);
    input_bytes.extend_from_slice(&2u64.to_le_bytes());
    input_bytes.push(CMAPB_KEY);
    input_bytes.extend_from_slice(&input_key_len.to_le_bytes());
    input_bytes.extend_from_slice(&key2);
    input_bytes.push(VBIN_UINT);
    input_bytes.extend_from_slice(&1u64.to_le_bytes());
    input_bytes.push(VBIN_CMAP_END);

    let mut i: usize = 0;
    let parsed_map = Container::input_binary(&input_bytes, &mut i, 0, 1).expect(
        "Cannot parse map from bytes",
    );
    assert_eq!(i, input_bytes.len());
    match parsed_map.get_map(&key1) {
        Some(contref) => assert_eq!(contref.value().unwrap().to_uint(), 2),
        None => panic!("Expected value in parsed map for the first key"),
    }
    match parsed_map.get_map(&key2) {
        Some(contref) => assert_eq!(contref.value().unwrap().to_uint(), 1),
        None => panic!("Expected value in parsed map for the second key"),
    }
}

#[test]
fn tdata_overwrite_input() {
    let key1 = aligned_key(&[556, 332, 776, 4433]);

    let mut input_bytes = Vec::<u8>::new();
    let input_key_len: u64 = 32;
    input_bytes.push(VBIN_CMAP_BEGIN);
    input_bytes.push(CMAPB_KEY);
    input_bytes.extend_from_slice(&input_key_len.to_le_bytes());
    input_bytes.extend_from_slice(&key1);
    input_bytes.push(VBIN_UINT);
    input_bytes.extend_from_slice(&2u64.to_le_bytes());
    input_bytes.push(CMAPB_KEY);
    input_bytes.extend_from_slice(&input_key_len.to_le_bytes());
    input_bytes.extend_from_slice(&key1);
    input_bytes.push(VBIN_UINT);
    input_bytes.extend_from_slice(&1u64.to_le_bytes());
    input_bytes.push(VBIN_CMAP_END);

    let mut i: usize = 0;
    let parsed_map = Container::input_binary(&input_bytes, &mut i, 0, 1).expect(
        "Cannot parse map from bytes",
    );
    assert_eq!(i, input_bytes.len());
    match parsed_map.get_map(&key1) {
        Some(contref) => assert_eq!(contref.value().unwrap().to_uint(), 1),
        None => panic!("Expected value in parsed map for the key"),
    }
}

#[test]
fn nested_input() {
    let key1 = aligned_key(&[556, 332, 776, 4433]);
    let key2 = aligned_key(&[5456, 3232, 7176, 41433]);

    let mut input_bytes = Vec::<u8>::new();
    let input_key_len: u64 = 32;
    input_bytes.push(VBIN_CMAP_BEGIN);
    input_bytes.push(CMAPB_KEY);
    input_bytes.extend_from_slice(&input_key_len.to_le_bytes());
    input_bytes.extend_from_slice(&key1);
    input_bytes.push(VBIN_UINT);
    input_bytes.extend_from_slice(&7u64.to_le_bytes());
    input_bytes.push(CMAPB_KEY);
    input_bytes.extend_from_slice(&input_key_len.to_le_bytes());
    input_bytes.extend_from_slice(&key2);
    input_bytes.push(VBIN_CMAP_BEGIN);
    input_bytes.push(CMAPB_KEY);
    input_bytes.extend_from_slice(&input_key_len.to_le_bytes());
    input_bytes.extend_from_slice(&key1);
    input_bytes.push(VBIN_UINT);
    input_bytes.extend_from_slice(&8u64.to_le_bytes());
    input_bytes.push(VBIN_CMAP_END);
    input_bytes.push(VBIN_CMAP_END);

    let mut i: usize = 0;
    let parsed_map = Container::input_binary(&input_bytes, &mut i, 0, 1).expect(
        "Cannot parse map from bytes",
    );
    assert_eq!(i, input_bytes.len());
    match parsed_map.get_map(&key1) {
        Some(contref) => assert_eq!(contref.value().unwrap().to_uint(), 7),
        None => panic!("Expected value in parsed map for the first key"),
    }
    match parsed_map.get_map(&key2) {
        Some(contref) => match contref.get_map(&key1) {
            Some(contv) => assert_eq!(contv.value().unwrap().to_uint(), 8),
            None => panic!("Expected value for inner nested key"),
        },
        None => panic!("Expected nested map in parsed map"),
    }
}

#[test]
fn nested_output() {
    let key1 = aligned_key(&[556, 332, 776, 4433]);

    let mut map = Container::new_map(10);
    let mut nmap = Container::new_map(10);
    nmap.set_map(&key1, Container::Val(Value::Bool(false)), 0, 1);
    map.set_map(&key1, nmap, 0, 2);
    let mut out_vec = vec![];
    map.output_binary(&mut out_vec);

    // outer begin + marker + len + key + (inner map wire) + outer end
    let inner_len = 2 + (1 + 8 + 32 + 2);
    assert_eq!(out_vec.len(), 2 + (1 + 8 + 32) + inner_len);
    assert_eq!(out_vec[0], VBIN_CMAP_BEGIN);
    assert_eq!(out_vec[1], CMAPB_KEY);
    assert_eq!(u64_at(&out_vec, 2), 32);
    assert_eq!(u64_at(&out_vec, 10), 556);
    assert_eq!(u64_at(&out_vec, 18), 332);
    assert_eq!(u64_at(&out_vec, 26), 776);
    assert_eq!(u64_at(&out_vec, 34), 4433);
    assert_eq!(out_vec[42], VBIN_CMAP_BEGIN);
    assert_eq!(out_vec[43], CMAPB_KEY);
    assert_eq!(u64_at(&out_vec, 44), 32);
    assert_eq!(out_vec[84], VBIN_BOOL);
    assert_eq!(out_vec[85], 0);
    assert_eq!(out_vec[86], VBIN_CMAP_END);
    assert_eq!(out_vec[87], VBIN_CMAP_END);
}

#[test]
fn container_round_trip_preserves_entries() {
    let key1 = aligned_key(&[1, 2]);
    let key2 = aligned_key(&[3, 4]);
    let mut map = Container::new_map(10);
    map.set_map(&key1, Container::Val(Value::UInt(11)), 0, 1);
    map.set_map(&key2, Container::Val(Value::IInt(-5)), 0, 2);
    let mut wire = vec![];
    map.output_binary(&mut wire);
    let mut i: usize = 0;
    let back = Container::input_binary(&wire, &mut i, 0, 9).expect("round trip parse failed");
    assert_eq!(i, wire.len());
    assert_eq!(back.get_map(&key1).unwrap().value().unwrap().to_uint(), 11);
    assert_eq!(back.get_map(&key2).unwrap().value().unwrap().to_iint(), -5);
}
