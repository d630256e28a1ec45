use keccak256::hasher::{keccak256, Keccak};
use keccak256::permutation::KeccakF;
use keccak256::sponge::{padding, Sponge};

#[test]
fn test_empty_input() {
    let output = [
        197, 210, 70, 1, 134, 247, 35, 60, 146, 126, 125, 178, 220, 199, 3,
        192, 229, 0, 182, 83, 202, 130, 39, 59, 123, 250, 216, 4, 93, 133, 164,
        112,
    ];
    assert_eq!(keccak256(&[]), output);
}

#[test]
fn test_short_input() {
    let output = [
        56, 209, 138, 203, 103, 210, 92, 139, 185, 148, 39, 100, 182, 47, 24,
        225, 112, 84, 246, 106, 129, 123, 212, 41, 84, 35, 173, 249, 237, 152,
        135, 62,
    ];
    assert_eq!(keccak256(&[102, 111, 111, 98, 97, 114]), output);
}

#[test]
fn test_long_input() {
    let input = [
        65, 108, 105, 99, 101, 32, 119, 97, 115, 32, 98, 101, 103, 105, 110,
        110, 105, 110, 103, 32, 116, 111, 32, 103, 101, 116, 32, 118, 101, 114,
        121, 32, 116, 105, 114, 101, 100, 32, 111, 102, 32, 115, 105, 116, 116,
        105, 110, 103, 32, 98, 121, 32, 104, 101, 114, 32, 115, 105, 115, 116,
        101, 114, 32, 111, 110, 32, 116, 104, 101, 32, 98, 97, 110, 107, 44,
        32, 97, 110, 100, 32, 111, 102, 32, 104, 97, 118, 105, 110, 103, 32,
        110, 111, 116, 104, 105, 110, 103, 32, 116, 111, 32, 100, 111, 58, 32,
        111, 110, 99, 101, 32, 111, 114, 32, 116, 119, 105, 99, 101, 32, 115,
        104, 101, 32, 104, 97, 100, 32, 112, 101, 101, 112, 101, 100, 32, 105,
        110, 116, 111, 32, 116, 104, 101, 32, 98, 111, 111, 107, 32, 104, 101,
        114, 32, 115, 105, 115, 116, 101, 114, 32, 119, 97, 115, 32, 114, 101,
        97, 100, 105, 110, 103, 44, 32, 98, 117, 116, 32, 105, 116, 32, 104,
        97, 100, 32, 110, 111, 32, 112, 105, 99, 116, 117, 114, 101, 115, 32,
        111, 114, 32, 99, 111, 110, 118, 101, 114, 115, 97, 116, 105, 111, 110,
        115, 32, 105, 110, 32, 105, 116, 44, 32, 97, 110, 100, 32, 119, 104,
        97, 116, 32, 105, 115, 32, 116, 104, 101, 32, 117, 115, 101, 32, 111,
        102, 32, 97, 32, 98, 111, 111, 107, 44, 32, 116, 104, 111, 117, 103,
        104, 116, 32, 65, 108, 105, 99, 101, 32, 119, 105, 116, 104, 111, 117,
        116, 32, 112, 105, 99, 116, 117, 114, 101, 115, 32, 111, 114, 32, 99,
        111, 110, 118, 101, 114, 115, 97, 116, 105, 111, 110, 115, 63,
    ];
    let output = [
        60, 227, 142, 8, 143, 135, 108, 85, 13, 254, 190, 58, 30, 106, 153,
        194, 188, 6, 208, 49, 16, 102, 150, 120, 100, 130, 224, 177, 64, 98,
        53, 252,
    ];
    assert_eq!(keccak256(&input), output);
}

#[test]
fn digest_twice_gives_same_bytes() {
    let mut k = Keccak::new();
    k.update(b"foobar");
    let first = k.digest();
    let second = k.digest();
    assert_eq!(first, second);
    assert_eq!(first, keccak256(b"foobar"));
}

#[test]
fn second_update_absorbs_on_top_of_first() {
    let mut k = Keccak::new();
    k.update(b"foo");
    k.update(b"bar");
    assert_ne!(k.digest(), keccak256(b"foobar"));
}

#[test]
fn padding_one_missing_byte_is_0x81() {
    assert_eq!(padding(135, 136), vec![0x81]);
    assert_eq!(padding(271, 136), vec![0x81]);
}

#[test]
fn padding_lengths() {
    let p = padding(0, 136);
    assert_eq!(p.len(), 136);
    assert_eq!(p[0], 0x01);
    assert_eq!(p[135], 0x80);
    assert!(p[1..135].iter().all(|b| *b == 0));
    assert_eq!(padding(136, 136).len(), 136);
    assert_eq!(padding(134, 136), vec![0x01, 0x80]);
    assert_eq!(padding(6, 136).len(), 130);
}

#[test]
fn digest_of_135_bytes_uses_single_pad_byte() {
    let msg = vec![0u8; 135];
    let d = keccak256(&msg);
    assert_eq!(d.len(), 32);
    assert_ne!(d, keccak256(&vec![0u8; 134]));
}

#[test]
fn permutation_of_zero_state() {
    // Keccak-f[1600] of the all-zero state: first lane is 0xF1258F7940E1DDE7.
    let f = KeccakF::new();
    let mut s = [0u64; 25];
    f.permutations(&mut s);
    assert_eq!(s[0], 0xF1258F7940E1DDE7);
    // lane (x = 1, y = 0) is stored at index 5
    assert_eq!(s[5], 0x84D5CCF933C0478A);
}

#[test]
fn words_are_little_endian() {
    let w = Sponge::bits_to_u64_words_le(&[1, 2, 3, 4, 5, 6, 7, 8, 9, 10]);
    assert_eq!(w, vec![0x0807060504030201]);
}

#[test]
fn squeeze_reads_lanes_row_by_row() {
    let sp = Sponge::new(136, 64);
    let mut s = [0u64; 25];
    s[0] = 0x0102030405060708;
    s[5] = 0x1112131415161718;
    let out = sp.squeeze(&mut s);
    assert_eq!(out.len(), 32);
    assert_eq!(&out[0..8], &[8, 7, 6, 5, 4, 3, 2, 1]);
    assert_eq!(&out[8..16], &[0x18, 0x17, 0x16, 0x15, 0x14, 0x13, 0x12, 0x11]);
    assert_eq!(s[0], 0x0102030405060708);
}

#[test]
fn absorb_one_block_changes_state() {
    let sp = Sponge::new(136, 64);
    let mut a = [0u64; 25];
    let mut block = vec![0u8; 136];
    block[0] = 1;
    sp.absorb(&mut a, &block);
    let mut b = [0u64; 25];
    b[0] = 1;
    KeccakF::new().permutations(&mut b);
    assert_eq!(a, b);
}
