use floton::keys::key_u64_out_vu8;
use floton::keys::key_u64_len;
use floton::keys::parse_key;

fn words(ws: &[u64]) -> Vec<u8> {
    let mut v = Vec::new();
    for w in ws {
        v.extend_from_slice(&w.to_le_bytes());
    }
    v
}

fn u64_at(buf: &[u8], off: usize) -> u64 {
    let mut w = [0u8; 8];
    w.copy_from_slice(&buf[off..off + 8]);
    u64::from_le_bytes(w)
}

#[test]
fn key_u64_out_vu8_works() {
    let key = words(&[3, 8, 4532, 8, 4478, 16, 5442, 6831, 1]);
    let mut output = Vec::<u8>::new();
    key_u64_out_vu8(&key, &mut output);
    assert_eq!(u64_at(&output, 0), 3);
    assert_eq!(u64_at(&output, 8), 8);
    assert_eq!(u64_at(&output, 16), 4532);
    assert_eq!(u64_at(&output, 24), 8);
    assert_eq!(u64_at(&output, 32), 4478);
    assert_eq!(u64_at(&output, 40), 16);
    assert_eq!(u64_at(&output, 48), 5442);
    assert_eq!(u64_at(&output, 56), 6831);
    assert_eq!(output.len(), 64);
}

#[test]
fn key_u64_len_works() {
    let key = words(&[2, 8, 4532, 8, 4478, 1]);
    assert_eq!(key_u64_len(&key), 40);
}

#[test]
fn parse_key_reads_segments() {
    let mut cmd = Vec::new();
    cmd.extend_from_slice(&2u64.to_le_bytes());
    cmd.extend_from_slice(&2u64.to_le_bytes());
    cmd.extend_from_slice(&[33, 55]);
    cmd.extend_from_slice(&3u64.to_le_bytes());
    cmd.extend_from_slice(&[7, 8, 9]);
    let mut place: usize = 0;
    let (segs, packed) = parse_key(&cmd, &mut place).expect("key should parse");
    assert_eq!(place, cmd.len());
    assert_eq!(segs.len(), 2);
    assert_eq!(segs[0], vec![33, 55]);
    assert_eq!(segs[1], vec![7, 8, 9]);
    assert_eq!(packed, cmd);
}

#[test]
fn parse_key_rejects_truncated_buffer() {
    let mut cmd = Vec::new();
    cmd.extend_from_slice(&2u64.to_le_bytes());
    cmd.extend_from_slice(&50u64.to_le_bytes());
    cmd.extend_from_slice(&[1, 2, 3]);
    let mut place: usize = 0;
    assert!(parse_key(&cmd, &mut place).is_none());
}
