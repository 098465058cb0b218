use branch_hints::codec::{leb_encode, leb_len};

fn enc(n: u64) -> Vec<u8> {
    let mut out: Vec<u8> = Vec::new();
    leb_encode(n, &mut out);
    out
}

#[test]
fn encodes_small_values_in_one_byte() {
    assert_eq!(enc(0), vec![0x00]);
    assert_eq!(enc(1), vec![0x01]);
    assert_eq!(enc(11), vec![0x0b]);
    assert_eq!(enc(127), vec![0x7f]);
}

#[test]
fn encodes_multi_byte_values() {
    assert_eq!(enc(128), vec![0x80, 0x01]);
    assert_eq!(enc(300), vec![0xac, 0x02]);
    assert_eq!(enc(624485), vec![0xe5, 0x8e, 0x26]);
    assert_eq!(
        enc(u64::MAX),
        vec![0xff, 0xff, 0xff, 0xff, 0xff, 0xff, 0xff, 0xff, 0xff, 0x01]
    );
}

#[test]
fn appends_after_existing_bytes() {
    let mut out: Vec<u8> = vec![0xaa];
    leb_encode(300, &mut out);
    assert_eq!(out, vec![0xaa, 0xac, 0x02]);
}

#[test]
fn length_matches_encoding() {
    for &n in &[0u64, 1, 127, 128, 300, 16384, 624485, u64::MAX] {
        assert_eq!(leb_len(n), enc(n).len());
    }
}

#[test]
fn matches_reference_encoder() {
    for &n in &[
        0u64,
        1,
        7,
        127,
        128,
        255,
        300,
        16383,
        16384,
        624485,
        u32::MAX as u64,
        u64::MAX,
    ] {
        let mut reference: Vec<u8> = Vec::new();
        leb128::write::unsigned(&mut reference, n).unwrap();
        assert_eq!(enc(n), reference);
    }
}
