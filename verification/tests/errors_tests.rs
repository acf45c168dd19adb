use floton::errors::FlotonErr;
use floton::constants::VBIN_ERROR;
use floton::constants::VBIN_BOOL;
use floton::constants::ERR_RET_NOT_FOUND;
use floton::constants::ERR_TYPE_NOT_ATOMIC;
use floton::constants::ERR_OPER_NOT_SUPPORTED;
use floton::constants::OP_ATOMIC_ADD;

fn u64_at(buf: &[u8], off: usize) -> u64 {
    let mut w = [0u8; 8];
    w.copy_from_slice(&buf[off..off + 8]);
    u64::from_le_bytes(w)
}

#[test]
fn err_out_works() {
    let mut keys = Vec::<u8>::new();
    let key_depth: u64 = 2;
    let key_length: u64 = 8;
    let key_1 = [33, 55, 44, 123, 221, 71, 81, 91];
    let key_2 = [33, 25, 44, 223, 121, 71, 81, 91];
    keys.extend_from_slice(&key_depth.to_le_bytes());
    keys.extend_from_slice(&key_length.to_le_bytes());
    keys.extend_from_slice(&key_1);
    keys.extend_from_slice(&key_length.to_le_bytes());
    keys.extend_from_slice(&key_2);
    let err_obj = FlotonErr::ReturnNotFound(keys);
    let mut buf = vec![];
    err_obj.output_binary(&mut buf);
    assert_eq!(buf.len(), 42);
    assert_eq!(buf[0], VBIN_ERROR);
    assert_eq!(buf[1], ERR_RET_NOT_FOUND);
    assert_eq!(u64_at(&buf, 2), 2);
    assert_eq!(u64_at(&buf, 10), 8);
    assert_eq!(buf[18], 33);
    assert_eq!(buf[19], 55);
    assert_eq!(buf[20], 44);
    assert_eq!(buf[21], 123);
    assert_eq!(buf[22], 221);
    assert_eq!(buf[23], 71);
    assert_eq!(buf[24], 81);
    assert_eq!(buf[25], 91);
    assert_eq!(u64_at(&buf, 26), 8);
    assert_eq!(buf[34], 33);
    assert_eq!(buf[35], 25);
    assert_eq!(buf[36], 44);
    assert_eq!(buf[37], 223);
    assert_eq!(buf[38], 121);
    assert_eq!(buf[39], 71);
    assert_eq!(buf[40], 81);
    assert_eq!(buf[41], 91);
}

#[test]
fn err_in_works() {
    let mut keys = Vec::<u8>::new();
    keys.push(VBIN_ERROR);
    keys.push(ERR_RET_NOT_FOUND);

    let key_depth: u64 = 2;
    let key_length: u64 = 8;
    let key_1: u64 = 66;
    let key_2: u64 = 77;
    keys.extend_from_slice(&key_depth.to_le_bytes());
    keys.extend_from_slice(&key_length.to_le_bytes());
    keys.extend_from_slice(&key_1.to_le_bytes());
    keys.extend_from_slice(&key_length.to_le_bytes());
    keys.extend_from_slice(&key_2.to_le_bytes());

    let mut i: usize = 0;
    let err_obj = FlotonErr::input_binary(&keys, &mut i).expect(
        "Cannot parse the error from bytes",
    );
    assert_eq!(i, 42);
    match err_obj {
        FlotonErr::ReturnNotFound(k) => {
            assert_eq!(u64_at(&k, 0), 2);
            assert_eq!(u64_at(&k, 8), 8);
            assert_eq!(u64_at(&k, 16), 66);
            assert_eq!(u64_at(&k, 24), 8);
            assert_eq!(u64_at(&k, 32), 77);
        },
        _ => panic!("Expected return not found error, but got different error {:?}", err_obj),
    }
}

#[test]
fn err_in_type_not_atom_works() {
    let mut err_data = Vec::<u8>::new();
    err_data.push(VBIN_ERROR);
    err_data.push(ERR_TYPE_NOT_ATOMIC);
    err_data.push(VBIN_BOOL);

    let key_depth: u64 = 2;
    let key_length: u64 = 8;
    let key_1: u64 = 6644;
    let key_2: u64 = 7722;
    err_data.extend_from_slice(&key_depth.to_le_bytes());
    err_data.extend_from_slice(&key_length.to_le_bytes());
    err_data.extend_from_slice(&key_1.to_le_bytes());
    err_data.extend_from_slice(&key_length.to_le_bytes());
    err_data.extend_from_slice(&key_2.to_le_bytes());

    let mut i: usize = 0;
    let err_obj = FlotonErr::input_binary(&err_data, &mut i).expect(
        "Cannot parse the error from bytes",
    );
    assert_eq!(i, 43);
    match err_obj {
        FlotonErr::TypeNotAtomic(k, t) => {
            assert_eq!(t, VBIN_BOOL);
            assert_eq!(u64_at(&k, 0), 2);
            assert_eq!(u64_at(&k, 8), 8);
            assert_eq!(u64_at(&k, 16), 6644);
            assert_eq!(u64_at(&k, 24), 8);
            assert_eq!(u64_at(&k, 32), 7722);
        },
        _ => panic!("Expected type not atomic error, but got different error {:?}", err_obj),
    }
}

#[test]
fn err_type_no_support_op_works() {
    let mut err_data = Vec::<u8>::new();
    err_data.push(VBIN_ERROR);
    err_data.push(ERR_OPER_NOT_SUPPORTED);
    err_data.push(VBIN_BOOL);
    err_data.extend_from_slice(&OP_ATOMIC_ADD.to_le_bytes());

    let key_depth: u64 = 2;
    let key_length: u64 = 8;
    let key_1: u64 = 7744;
    let key_2: u64 = 9922;
    err_data.extend_from_slice(&key_depth.to_le_bytes());
    err_data.extend_from_slice(&key_length.to_le_bytes());
    err_data.extend_from_slice(&key_1.to_le_bytes());
    err_data.extend_from_slice(&key_length.to_le_bytes());
    err_data.extend_from_slice(&key_2.to_le_bytes());

    let mut i: usize = 0;
    let err_obj = FlotonErr::input_binary(&err_data, &mut i).expect(
        "Cannot parse the error from bytes",
    );
    assert_eq!(i, 45);
    match err_obj {
        FlotonErr::OperationNoSupport(k, t, o) => {
            assert_eq!(t, VBIN_BOOL);
            assert_eq!(o, OP_ATOMIC_ADD);
            assert_eq!(u64_at(&k, 0), 2);
            assert_eq!(u64_at(&k, 8), 8);
            assert_eq!(u64_at(&k, 16), 7744);
            assert_eq!(u64_at(&k, 24), 8);
            assert_eq!(u64_at(&k, 32), 9922);
        },
        _ => panic!("Expected operation not supported, but got different error {:?}", err_obj),
    }
}
