use floton::values::Value;
use floton::values::MemOrder;
use floton::constants::VBIN_BOOL;
use floton::constants::VBIN_ABOOL;
use floton::constants::VBIN_UINT;
use floton::constants::VBIN_AUINT;
use floton::constants::VBIN_IINT;
use floton::constants::VBIN_AIINT;

fn no_key() -> Vec<u8> {
    Vec::new()
}

#[test]
fn to_bool_works() {
    let a = Value::Bool(true);
    let b = Value::Nothing;
    let c = Value::ABool(true);
    assert!(a.to_bool());
    assert!(!b.to_bool());
    assert!(c.to_bool());
}

#[test]
fn to_uint_works() {
    let a = Value::Bool(true);
    let b = Value::Nothing;
    let c = Value::UInt(5);
    let d = Value::AUInt(5);
    assert_eq!(a.to_uint(), 1);
    assert_eq!(b.to_uint(), 0);
    assert_eq!(c.to_uint(), 5);
    assert_eq!(d.to_uint(), 5);
}

#[test]
fn to_iint_works() {
    let a = Value::Bool(true);
    let b = Value::Nothing;
    let c = Value::IInt(5);
    let d = Value::AIInt(5);
    assert_eq!(a.to_iint(), 1);
    assert_eq!(b.to_iint(), 0);
    assert_eq!(c.to_iint(), 5);
    assert_eq!(d.to_iint(), 5);
}

#[test]
fn output_bool_works() {
    let a = Value::Bool(true);
    let b = Value::ABool(true);
    let mut out = Vec::<u8>::new();
    a.output_binary(&mut out);
    b.output_binary(&mut out);
    assert_eq!(out[0], VBIN_BOOL);
    assert_eq!(out[1], 1);
    assert_eq!(out[2], VBIN_ABOOL);
    assert_eq!(out[3], 1);
}

#[test]
fn output_uint_works() {
    let a = Value::UInt(8);
    let b = Value::AUInt(5);
    let mut out = Vec::<u8>::new();
    a.output_binary(&mut out);
    b.output_binary(&mut out);
    assert_eq!(out[0], VBIN_UINT);
    let mut w1 = [0u8; 8];
    w1.copy_from_slice(&out[1..9]);
    assert_eq!(u64::from_le_bytes(w1), 8);
    assert_eq!(out[9], VBIN_AUINT);
    let mut w2 = [0u8; 8];
    w2.copy_from_slice(&out[10..18]);
    assert_eq!(u64::from_le_bytes(w2), 5);
}

#[test]
fn output_iint_works() {
    let a = Value::IInt(8);
    let b = Value::AIInt(5);
    let mut out = Vec::<u8>::new();
    a.output_binary(&mut out);
    b.output_binary(&mut out);
    assert_eq!(out[0], VBIN_IINT);
    let mut w1 = [0u8; 8];
    w1.copy_from_slice(&out[1..9]);
    assert_eq!(i64::from_le_bytes(w1), 8);
    assert_eq!(out[9], VBIN_AIINT);
    let mut w2 = [0u8; 8];
    w2.copy_from_slice(&out[10..18]);
    assert_eq!(i64::from_le_bytes(w2), 5);
}

#[test]
fn input_bool_works() {
    let mut i: usize = 0;
    let f_bytes = vec![VBIN_BOOL, 0];
    let t_bytes = vec![VBIN_BOOL, 1];

    let res1 = Value::input_binary(&f_bytes, &mut i).expect("Could not parse false value");
    assert_eq!(i, 2);
    i = 0;
    let res2 = Value::input_binary(&t_bytes, &mut i).expect("Could not parse true value");
    assert_eq!(i, 2);
    match res1 {
        Value::Bool(b) => assert!(!b),
        _ => panic!("Expected bool, got other type"),
    }

    match res2 {
        Value::Bool(b) => assert!(b),
        _ => panic!("Expected bool, got other type"),
    }
}

#[test]
fn input_uint_works() {
    let mut i: usize = 0;
    let input_num: u64 = 9;
    let mut full_input = vec![VBIN_UINT];
    full_input.extend_from_slice(&input_num.to_le_bytes());
    let res = Value::input_binary(&full_input, &mut i).expect("Could not parse uint value");
    assert_eq!(i, 9);
    match res {
        Value::UInt(n) => assert_eq!(n, 9),
        _ => panic!("Expected Uint, got other type"),
    }
}

#[test]
fn input_iint_works() {
    let mut i: usize = 0;
    let input_num: i64 = -9;
    let mut full_input = vec![VBIN_IINT];
    full_input.extend_from_slice(&input_num.to_le_bytes());
    let res = Value::input_binary(&full_input, &mut i).expect("Could not parse iint value");
    assert_eq!(i, 9);
    match res {
        Value::IInt(n) => assert_eq!(n, -9),
        _ => panic!("Expected IInt, got other type"),
    }
}

#[test]
fn store_works() {
    let mut b = Value::ABool(true);
    let a = Value::Bool(false);
    let c = Value::Nothing;
    b.store(&a, MemOrder::Release, &no_key()).expect("Unable to store bool");
    b.store(&c, MemOrder::Release, &no_key()).expect("Unable to store bool");
    assert!(!b.to_bool());

    // conversion between uint and iint
    let mut num = Value::AIInt(-50);
    let arg = Value::UInt(20);
    num.store(&arg, MemOrder::Release, &no_key()).expect("Unable to store uint");
    assert_eq!(20, num.to_uint());
}

#[test]
fn swap_works() {
    let mut b = Value::ABool(true);
    let a = Value::Bool(false);
    let c = Value::Nothing;
    match b.swap(&a, MemOrder::Release, &no_key()) {
        Ok(swapped) => assert!(swapped.to_bool()),
        Err(e) => panic!("Expected success on bool swap, got err: {:?}", e),
    }

    match b.swap(&c, MemOrder::Release, &no_key()) {
        Ok(swapped) => assert!(!swapped.to_bool()),
        Err(e) => panic!("Expected success on bool swap, got err: {:?}", e),
    }

    let mut num = Value::AUInt(50);
    let arg = Value::UInt(30);
    match num.swap(&arg, MemOrder::Release, &no_key()) {
        Ok(swapped) => assert_eq!(swapped.to_uint(), 50),
        Err(e) => panic!("Expected success on uint swap, got err: {:?}", e),
    }
}

#[test]
fn cond_store_works() {
    let mut b = Value::ABool(true);
    let expected = Value::Bool(true);
    let desired = Value::Bool(false);
    match b.cond_store(&expected, &desired, MemOrder::Release, &no_key()) {
        Ok(res) => assert!(res),
        Err(e) => panic!("Expected cond store to succeed but got err: {:?}", e),
    }

    let mut num = Value::AUInt(50);
    let num_expected = Value::UInt(40);
    let num_desired = Value::UInt(100);
    match num.cond_store(&num_expected, &num_desired, MemOrder::Relaxed, &no_key()) {
        Ok(res) => assert!(!res),
        Err(e) => panic!("Expected cond store to succeed but got err: {:?}", e),
    }
}

#[test]
fn cond_swap_works() {
    let mut b = Value::ABool(true);
    let expected = Value::Bool(true);
    let desired = Value::Bool(false);
    match b.cond_swap(&expected, &desired, MemOrder::Release, &no_key()) {
        Ok(pair) => {
            assert!(pair.0);
            assert!(pair.1.to_bool());
        },
        Err(e) => panic!("Expected cond swap to succeed but got err: {:?}", e),
    }

    let mut num = Value::AUInt(50);
    let num_expected = Value::UInt(40);
    let num_desired = Value::UInt(100);
    match num.cond_swap(&num_expected, &num_desired, MemOrder::Relaxed, &no_key()) {
        Ok(pair) => {
            assert!(!pair.0);
            assert_eq!(pair.1.to_uint(), 50);
        },
        Err(e) => panic!("Expected cond swap to succeed but got err: {:?}", e),
    }
}

#[test]
fn fetch_add_works() {
    let mut num = Value::AUInt(0);
    for _ in 0..5 {
        let arg = Value::UInt(1);
        num.fetch_add(&arg, MemOrder::Relaxed, &no_key()).expect("fetch add failed");
    }
    assert_eq!(num.to_uint(), 5);
    let arg2 = Value::UInt(3);
    let prev = num.fetch_add(&arg2, MemOrder::Acquire, &no_key()).unwrap();
    assert_eq!(prev.to_uint(), 5);
    assert_eq!(num.to_uint(), 8);
}

#[test]
fn fetch_sub_works() {
    let mut num = Value::AUInt(6);
    for _ in 0..5 {
        let arg = Value::UInt(1);
        num.fetch_sub(&arg, MemOrder::Relaxed, &no_key()).expect("fetch sub failed");
    }
    assert_eq!(num.to_uint(), 1);
    let arg2 = Value::UInt(1);
    let prev = num.fetch_sub(&arg2, MemOrder::Acquire, &no_key()).unwrap();
    assert_eq!(prev.to_uint(), 1);
    assert_eq!(num.to_uint(), 0);
}

#[test]
fn fetch_add_on_bool_reports_not_atomic() {
    let mut b = Value::ABool(true);
    let arg = Value::UInt(1);
    match b.fetch_add(&arg, MemOrder::Relaxed, &no_key()) {
        Err(floton::errors::FlotonErr::TypeNotAtomic(_, t)) => {
            assert_eq!(t, VBIN_UINT);
        },
        other => panic!("Expected type-not-atomic, got {:?}", other),
    }
}

#[test]
fn store_on_plain_value_reports_not_atomic() {
    let mut v = Value::UInt(3);
    let arg = Value::UInt(9);
    match v.store(&arg, MemOrder::Release, &no_key()) {
        Err(floton::errors::FlotonErr::TypeNotAtomic(_, t)) => {
            assert_eq!(t, VBIN_UINT);
        },
        other => panic!("Expected type-not-atomic, got {:?}", other),
    }
    assert_eq!(v.to_uint(), 3);
}
