use floton::fast_output::out_bool;
use floton::fast_output::out_u64;
use floton::constants::VBIN_BOOL;
use floton::constants::VBIN_UINT;

#[test]
fn out_bool_works() {
    let mut output = Vec::<u8>::new();
    out_bool(true, &mut output);
    out_bool(false, &mut output);
    assert_eq!(output[0], VBIN_BOOL);
    assert_eq!(output[1], 1);
    assert_eq!(output[2], VBIN_BOOL);
    assert_eq!(output[3], 0);
}

#[test]
fn out_64_works() {
    let mut output = Vec::<u8>::new();
    out_u64(40, &mut output);
    assert_eq!(output[0], VBIN_UINT);
    let mut w = [0u8; 8];
    w.copy_from_slice(&output[1..9]);
    assert_eq!(u64::from_le_bytes(w), 40);
}
