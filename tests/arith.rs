use keccak256::arith::{KeccakFArith, State};
use keccak256::codec::{convert_b13_coef, convert_b2_to_b13, convert_b2_to_b9, convert_b9_coef, Lane};
use keccak256::permutation::KeccakF;
use num_bigint::BigUint;

fn lane_digits(lane: &Lane, base: u32, n: usize) -> Vec<u64> {
    let mut v = BigUint::from_slice(&lane.limbs);
    let mut out = Vec::new();
    for _ in 0..n {
        let d = &v % base;
        out.push(d.to_u32_digits().first().copied().unwrap_or(0) as u64);
        v = v / base;
    }
    assert_eq!(v, BigUint::from(0u32));
    out
}

fn decode_b13(lane: &Lane) -> u64 {
    let digits = lane_digits(lane, 13, 64);
    let mut w = 0u64;
    for (i, d) in digits.iter().enumerate() {
        w |= convert_b13_coef(*d) << i;
    }
    w
}

fn sample_state(seed: u64) -> [u64; 25] {
    let mut x = seed;
    let mut s = [0u64; 25];
    for lane in s.iter_mut() {
        x = x.wrapping_mul(6364136223846793005).wrapping_add(1442695040888963407);
        *lane = x;
    }
    s
}

fn encode_state(s: &[u64; 25]) -> State {
    State { lanes: s.iter().map(|w| convert_b2_to_b13(*w)).collect() }
}

#[test]
fn encode_small_words() {
    assert_eq!(convert_b2_to_b13(5).limbs, vec![170]);
    assert_eq!(convert_b2_to_b9(3).limbs, vec![10]);
    assert_eq!(convert_b2_to_b13(0).limbs, Vec::<u32>::new());
    assert_eq!(BigUint::from_slice(&convert_b2_to_b13(1 << 20).limbs), BigUint::from(13u32).pow(20));
}

#[test]
fn base13_digits_decode_to_the_word() {
    for x in [0u64, 1, u64::MAX, 0xDEAD_BEEF_0123_4567, 0x8000_0000_0000_0001] {
        assert_eq!(decode_b13(&convert_b2_to_b13(x)), x);
    }
}

#[test]
fn base9_digits_are_the_bits() {
    for x in [0u64, u64::MAX, 0x0F0F_1234_5678_9ABC] {
        let digits = lane_digits(&convert_b2_to_b9(x), 9, 64);
        for (i, d) in digits.iter().enumerate() {
            assert_eq!(*d, (x >> i) & 1);
            assert_eq!(convert_b9_coef(2 * *d), (x >> i) & 1);
        }
    }
}

#[test]
fn decode_tables() {
    let expected9 = [0u64, 0, 1, 1, 0, 0, 1, 1, 0];
    for d in 0..9u64 {
        assert_eq!(convert_b9_coef(d), expected9[d as usize]);
    }
    for d in 0..13u64 {
        assert_eq!(convert_b13_coef(d), d % 2);
    }
}

#[test]
fn parity_of_five_bits_is_xor() {
    for m in 0..32u64 {
        let b: Vec<u64> = (0..5).map(|i| (m >> i) & 1).collect();
        let sum: u64 = b.iter().sum();
        assert_eq!(convert_b13_coef(sum), b[0] ^ b[1] ^ b[2] ^ b[3] ^ b[4]);
    }
}

#[test]
fn chi_digit_table() {
    for m in 0..8u64 {
        let (a, b, c) = (m & 1, (m >> 1) & 1, (m >> 2) & 1);
        assert_eq!(convert_b9_coef(2 * a + b + 3 * c), (a ^ (!b & c)) & 1);
    }
}

#[test]
fn lane_arithmetic() {
    let a = convert_b2_to_b13(3);
    let b = convert_b2_to_b13(1);
    assert_eq!(a.plus(&b).limbs, vec![15]);
    assert_eq!(a.times(13).limbs, vec![182]);
    assert_eq!(Lane::zero().limbs, Vec::<u32>::new());
    let big = Lane { limbs: vec![u32::MAX] };
    assert_eq!(big.plus(&Lane { limbs: vec![1] }).limbs, vec![0, 1]);
}

#[test]
fn engines_agree_on_zero_state() {
    let mut redundant = State::default();
    assert_eq!(redundant.lanes.len(), 25);
    assert!(redundant.lanes.iter().all(|l| l.limbs.is_empty()));
    KeccakFArith::new().permutations(&mut redundant);
    assert_eq!(decode_b13(&redundant.lanes[0]), 0xF1258F7940E1DDE7);
    assert_eq!(decode_b13(&redundant.lanes[5]), 0x84D5CCF933C0478A);
}

#[test]
fn clone_keeps_lane_values() {
    let s = encode_state(&sample_state(7));
    let c = s.clone_state();
    for i in 0..25 {
        assert_eq!(c.lanes[i].limbs, s.lanes[i].limbs);
    }
}

#[test]
fn engines_agree_on_sample_states() {
    for seed in [1u64, 42, 0xFFFF_FFFF] {
        let s = sample_state(seed);
        let mut binary = s;
        KeccakF::new().permutations(&mut binary);
        let mut redundant = encode_state(&s);
        KeccakFArith::new().permutations(&mut redundant);
        assert_eq!(redundant.lanes.len(), 25);
        for i in 0..25 {
            assert_eq!(decode_b13(&redundant.lanes[i]), binary[i]);
            assert!(lane_digits(&redundant.lanes[i], 13, 64).iter().all(|d| *d <= 1));
        }
    }
}
