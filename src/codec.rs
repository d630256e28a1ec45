//! Redundant-base lanes: big integers whose base-13 or base-9 digits each carry one bit,
//! so that XOR, AND and NOT become additions and multiplications by small constants.
//!
//! A lane holds its value as little-endian base-2^32 limbs; all arithmetic on it is done by
//! `num_bigint::BigUint`. Its meaning is given through digit sequences: `from_digits(d, b)`
//! is the integer whose base-`b` digits, least significant first, are `d`.
use vstd::prelude::*;
use num_bigint::BigUint;
use num_traits::ToPrimitive;

verus! {

/// Base of the limbs a lane is stored in.
pub open spec fn limb_base() -> int {
    0x1_0000_0000
}

/// The integer with digits `d` (least significant first) in base `b`.
pub open spec fn from_digits(d: Seq<int>, b: int) -> int
    decreases d.len(),
{
    if d.len() == 0 { 0 } else { d[0] + b * from_digits(d.skip(1), b) }
}

/// A sequence of `u32` digits read as integers.
pub open spec fn u32s(s: Seq<u32>) -> Seq<int> {
    Seq::new(s.len(), |i: int| s[i] as int)
}

/// Value of a little-endian sequence of base-2^32 limbs.
pub open spec fn limbs_value(l: Seq<u32>) -> int {
    from_digits(u32s(l), limb_base())
}

/// Every digit of `d` lies in `[0, b)`.
pub open spec fn digits_in_range(d: Seq<int>, b: int) -> bool {
    forall|i: int| 0 <= i < d.len() ==> 0 <= #[trigger] d[i] < b
}

/// Bit `i` of `w`, as 0 or 1.
pub open spec fn bit(w: u64, i: int) -> int {
    ((w >> (i as u64)) & 1) as int
}

/// The 64 bits of `w`, least significant first.
pub open spec fn bits(w: u64) -> Seq<int> {
    Seq::new(64, |i: int| bit(w, i))
}

/// `w` in redundant base `b`: digit `i` is bit `i` of `w`.
pub open spec fn encode_spec(w: u64, b: int) -> int {
    from_digits(bits(w), b)
}

/// Digit `i` of `v` in base `b`.
pub open spec fn digit(v: int, b: int, i: nat) -> int {
    (v / vstd::arithmetic::power::pow(b, i)) % b
}

/// The bit a base-9 digit stands for after the chi combination `2a + b + 3c`.
pub open spec fn b9_bit(d: int) -> int {
    if d == 2 || d == 3 || d == 6 || d == 7 { 1 } else { 0 }
}

/// A lane of the redundant-base engine.
pub struct Lane {
    pub limbs: Vec<u32>,
}

impl Lane {
    pub open spec fn value(&self) -> int {
        limbs_value(self.limbs@)
    }

    /// The lane with value zero.
    pub fn zero() -> (r: Lane)
        ensures
            r.value() == 0,
    {
        Lane { limbs: Vec::new() }
    }

    /// Sum of two lanes.
    pub fn plus(&self, other: &Lane) -> (r: Lane)
        ensures
            r.value() == self.value() + other.value(),
    {
        Lane { limbs: big_add(&self.limbs, &other.limbs) }
    }

    /// The lane times a small constant.
    pub fn times(&self, k: u32) -> (r: Lane)
        ensures
            r.value() == self.value() * k,
    {
        Lane { limbs: big_mul_small(&self.limbs, k) }
    }

    /// A lane with the same value.
    pub fn copy(&self) -> (r: Lane)
        ensures
            r.value() == self.value(),
    {
        Lane { limbs: self.limbs.clone() }
    }
}

/// Relies on num_bigint: `BigUint + BigUint` adds; `from_slice` and `to_u32_digits` read and
/// write the value as little-endian base-2^32 limbs.
#[verifier::external_body]
fn big_add(a: &Vec<u32>, b: &Vec<u32>) -> (r: Vec<u32>)
    ensures
        limbs_value(r@) == limbs_value(a@) + limbs_value(b@),
{
    (BigUint::from_slice(a) + BigUint::from_slice(b)).to_u32_digits()
}

/// Relies on num_bigint: `BigUint * u32` multiplies.
#[verifier::external_body]
fn big_mul_small(a: &Vec<u32>, k: u32) -> (r: Vec<u32>)
    ensures
        limbs_value(r@) == limbs_value(a@) * k,
{
    (BigUint::from_slice(a) * k).to_u32_digits()
}

/// Relies on num_bigint: `BigUint / u32` is the quotient rounded down (it panics on zero).
#[verifier::external_body]
fn big_div_small(a: &Vec<u32>, d: u32) -> (r: Vec<u32>)
    requires
        d > 0,
    ensures
        limbs_value(r@) == limbs_value(a@) / (d as int),
{
    (BigUint::from_slice(a) / d).to_u32_digits()
}

/// Relies on num_bigint: `BigUint % u32` is the remainder (it panics on zero), and on
/// num_traits' `ToPrimitive::to_u32`, which returns `Some` of any value below 2^32.
#[verifier::external_body]
fn big_rem_small(a: &Vec<u32>, d: u32) -> (r: Option<u32>)
    requires
        d > 0,
    ensures
        r == Some((limbs_value(a@) % (d as int)) as u32),
{
    (BigUint::from_slice(a) % d).to_u32()
}

/// Digits that are not negative give a value that is not negative.
pub proof fn lemma_from_digits_nonneg(d: Seq<int>, b: int)
    requires
        b >= 0,
        forall|i: int| 0 <= i < d.len() ==> 0 <= #[trigger] d[i],
    ensures
        from_digits(d, b) >= 0,
    decreases d.len(),
{
    if d.len() > 0 {
        lemma_from_digits_nonneg(d.skip(1), b);
        assert(b * from_digits(d.skip(1), b) >= 0) by (nonlinear_arith)
            requires b >= 0, from_digits(d.skip(1), b) >= 0;
    }
}

/// Adding two values adds their digit sequences digit by digit.
pub proof fn lemma_from_digits_add(d: Seq<int>, e: Seq<int>, b: int)
    requires
        d.len() == e.len(),
    ensures
        from_digits(d, b) + from_digits(e, b) == from_digits(Seq::new(d.len(), |i: int| d[i] + e[i]), b),
    decreases d.len(),
{
    let s = Seq::new(d.len(), |i: int| d[i] + e[i]);
    if d.len() > 0 {
        lemma_from_digits_add(d.skip(1), e.skip(1), b);
        assert(s.skip(1) =~= Seq::new(d.skip(1).len(), |i: int| d.skip(1)[i] + e.skip(1)[i]));
        vstd::arithmetic::mul::lemma_mul_is_distributive_add(b, from_digits(d.skip(1), b), from_digits(e.skip(1), b));
    }
}

/// Multiplying a value by `k` multiplies each digit by `k`.
pub proof fn lemma_from_digits_scale(d: Seq<int>, k: int, b: int)
    ensures
        k * from_digits(d, b) == from_digits(Seq::new(d.len(), |i: int| k * d[i]), b),
    decreases d.len(),
{
    let s = Seq::new(d.len(), |i: int| k * d[i]);
    if d.len() > 0 {
        lemma_from_digits_scale(d.skip(1), k, b);
        assert(s.skip(1) =~= Seq::new(d.skip(1).len(), |i: int| k * d.skip(1)[i]));
        let f = from_digits(d.skip(1), b);
        assert(k * (d[0] + b * f) == k * d[0] + b * (k * f)) by (nonlinear_arith);
    }
}

/// Multiplying by the base shifts the digits up by one place.
pub proof fn lemma_from_digits_shift(d: Seq<int>, b: int)
    ensures
        b * from_digits(d, b) == from_digits(seq![0int] + d, b),
{
    assert((seq![0int] + d).skip(1) =~= d);
}

/// A trailing zero digit does not change the value.
pub proof fn lemma_from_digits_pad(d: Seq<int>, b: int)
    ensures
        from_digits(d.push(0), b) == from_digits(d, b),
    decreases d.len(),
{
    if d.len() > 0 {
        assert(d.push(0).skip(1) =~= d.skip(1).push(0));
        lemma_from_digits_pad(d.skip(1), b);
    } else {
        assert(d.push(0).skip(1) =~= d);
    }
}

/// With every digit in range, the least digit is the remainder by the base and the other
/// digits give the quotient.
pub proof fn lemma_from_digits_div_mod(d: Seq<int>, b: int)
    requires
        b > 0,
        d.len() > 0,
        digits_in_range(d, b),
    ensures
        from_digits(d, b) % b == d[0],
        from_digits(d, b) / b == from_digits(d.skip(1), b),
{
    let f = from_digits(d.skip(1), b);
    assert(from_digits(d, b) == f * b + d[0]) by (nonlinear_arith)
        requires from_digits(d, b) == d[0] + b * f;
    vstd::arithmetic::div_mod::lemma_fundamental_div_mod_converse(from_digits(d, b), b, f, d[0]);
}

/// With every digit in range, digit `i` of the value is `d[i]`.
pub proof fn lemma_digit_of_from_digits(d: Seq<int>, b: int, i: nat)
    requires
        b > 1,
        i < d.len(),
        digits_in_range(d, b),
    ensures
        digit(from_digits(d, b), b, i) == d[i as int],
    decreases i,
{
    lemma_from_digits_div_mod(d, b);
    if i > 0 {
        assert(digits_in_range(d.skip(1), b));
        lemma_digit_of_from_digits(d.skip(1), b, (i - 1) as nat);
        let v = from_digits(d, b);
        let p = vstd::arithmetic::power::pow(b, (i - 1) as nat);
        lemma_from_digits_nonneg(d, b);
        vstd::arithmetic::power::lemma_pow_positive(b, (i - 1) as nat);
        vstd::arithmetic::div_mod::lemma_div_denominator(v, b, p);
        vstd::arithmetic::power::lemma_pow_adds(b, 1, (i - 1) as nat);
        vstd::arithmetic::power::lemma_pow1(b);
        assert(vstd::arithmetic::power::pow(b, i) == b * p);
        assert(v / (b * p) == from_digits(d.skip(1), b) / p);
        assert(d.skip(1)[i - 1] == d[i as int]);
    } else {
        vstd::arithmetic::power::lemma_pow0(b);
    }
}

/// Builds a lane from its digits in `base`, by Horner's rule from the most significant.
pub fn lane_from_digits(e: &Vec<u32>, base: u32) -> (r: Lane)
    ensures
        r.value() == from_digits(u32s(e@), base as int),
{
    let mut acc = Lane { limbs: Vec::new() };
    let mut j: usize = e.len();
    assert(u32s(e@).skip(j as int).len() == 0);
    while j > 0
        invariant
            j <= e@.len(),
            acc.value() == from_digits(u32s(e@).skip(j as int), base as int),
        decreases j,
    {
        j -= 1;
        let scaled = big_mul_small(&acc.limbs, base);
        let low = vec![e[j]];
        assert(from_digits(u32s(low@).skip(1), limb_base()) == 0);
        assert(limbs_value(low@) == e@[j as int]);
        acc = Lane { limbs: big_add(&scaled, &low) };
        let ghost t = u32s(e@).skip(j as int);
        assert(t.skip(1) =~= u32s(e@).skip(j + 1));
        assert(t[0] == e@[j as int]);
        assert(from_digits(t, base as int) == t[0] + base * from_digits(t.skip(1), base as int));
        assert(acc.value() == from_digits(t, base as int)) by (nonlinear_arith)
            requires
                acc.value() == limbs_value(scaled@) + e@[j as int],
                limbs_value(scaled@) == from_digits(t.skip(1), base as int) * base,
                from_digits(t, base as int) == e@[j as int] + base * from_digits(t.skip(1), base as int);
    }
    assert(u32s(e@).skip(0) =~= u32s(e@));
    acc
}

/// The first `n` digits of a lane in `base`, when the lane has exactly the in-range digits `d`.
pub(crate) fn lane_to_digits(x: &Lane, base: u32, n: usize, Ghost(d): Ghost<Seq<int>>) -> (r: Vec<u32>)
    requires
        base > 1,
        d.len() == n,
        digits_in_range(d, base as int),
        x.value() == from_digits(d, base as int),
    ensures
        u32s(r@) == d,
{
    let mut raw: Vec<u32> = x.limbs.clone();
    let mut out: Vec<u32> = Vec::new();
    assert(d.skip(0) =~= d);
    for i in 0..n
        invariant
            base > 1,
            d.len() == n,
            digits_in_range(d, base as int),
            limbs_value(raw@) == from_digits(d.skip(i as int), base as int),
            u32s(out@) =~= d.subrange(0, i as int),
    {
        assert(digits_in_range(d.skip(i as int), base as int));
        proof {
            lemma_from_digits_div_mod(d.skip(i as int), base as int);
        }
        let r = big_rem_small(&raw, base);
        let digit = match r {
            Some(v) => v,
            None => 0,
        };
        assert(digit as int == d[i as int]);
        let ghost prev = out@;
        out.push(digit);
        assert(u32s(out@) =~= u32s(prev).push(digit as int));
        assert(d.subrange(0, i + 1) =~= d.subrange(0, i as int).push(d[i as int]));
        raw = big_div_small(&raw, base);
        assert(d.skip(i as int).skip(1) =~= d.skip(i + 1));
    }
    out
}

/// The 64 bits of `a`, least significant first.
fn bits_of(a: u64) -> (r: Vec<u32>)
    ensures
        u32s(r@) == bits(a),
{
    let mut out: Vec<u32> = Vec::new();
    for i in 0..64
        invariant
            u32s(out@) =~= bits(a).subrange(0, i as int),
    {
        let w = (a >> i as u64) & 1;
        assert(w <= 1) by (bit_vector)
            requires w == (a >> i as u64) & 1;
        let b = w as u32;
        assert(b as int == bit(a, i as int));
        let ghost prev = out@;
        out.push(b);
        assert(u32s(out@) =~= u32s(prev).push(b as int));
        assert(bits(a).subrange(0, i + 1) =~= bits(a).subrange(0, i as int).push(bit(a, i as int)));
    }
    out
}

/// `a` in redundant base 13: digit `i` is bit `i` of `a`.
pub fn convert_b2_to_b13(a: u64) -> (r: Lane)
    ensures
        r.value() == encode_spec(a, 13),
{
    lane_from_digits(&bits_of(a), 13)
}

/// `a` in redundant base 9: digit `i` is bit `i` of `a`.
pub fn convert_b2_to_b9(a: u64) -> (r: Lane)
    ensures
        r.value() == encode_spec(a, 9),
{
    lane_from_digits(&bits_of(a), 9)
}

/// The bit a base-13 digit stands for: its parity.
pub fn convert_b13_coef(x: u64) -> (r: u64)
    requires
        x < 13,
    ensures
        r == x % 2,
{
    assert(x & 1 == x % 2) by (bit_vector);
    x & 1
}

/// The bit a base-9 digit stands for, by the table `[0, 0, 1, 1, 0, 0, 1, 1, 0]`.
pub fn convert_b9_coef(x: u64) -> (r: u64)
    requires
        x < 9,
    ensures
        r == b9_bit(x as int),
{
    let bit_table: [u64; 9] = [0, 0, 1, 1, 0, 0, 1, 1, 0];
    bit_table[x as usize]
}

/// Bits of `w` are 0 or 1.
pub proof fn lemma_bit_range(w: u64, i: int)
    requires
        0 <= i < 64,
    ensures
        0 <= bit(w, i) <= 1,
{
    let k = i as u64;
    assert((w >> k) & 1 <= 1) by (bit_vector);
}

/// Decoding each base-13 digit of `encode_spec(x, 13)` by parity gives back the bits of `x`,
/// which read in base 2 are `x` itself; the base-9 digits of `encode_spec(x, 9)` are the bits of `x`, and the base-9 table decodes
/// twice each of them (the form in which a round constant enters a lane) to that bit.
pub proof fn lemma_encode_decode(x: u64)
    ensures
        forall|i: nat| i < 64 ==> #[trigger] digit(encode_spec(x, 13), 13, i) % 2 == bit(x, i as int),
        forall|i: nat| i < 64 ==> #[trigger] digit(encode_spec(x, 9), 9, i) == bit(x, i as int),
        forall|i: nat| i < 64 ==> b9_bit(2 * #[trigger] digit(encode_spec(x, 9), 9, i)) == bit(x, i as int),
        from_digits(Seq::new(64, |i: int| digit(encode_spec(x, 13), 13, i as nat) % 2), 2) == x as int,
{
    assert forall|j: int| 0 <= j < 64 implies 0 <= #[trigger] bits(x)[j] <= 1 by {
        lemma_bit_range(x, j);
    }
    assert forall|i: nat| i < 64 implies #[trigger] digit(encode_spec(x, 13), 13, i) % 2 == bit(x, i as int) by {
        lemma_digit_of_from_digits(bits(x), 13, i);
    }
    assert forall|i: nat| i < 64 implies #[trigger] digit(encode_spec(x, 9), 9, i) == bit(x, i as int) by {
        lemma_digit_of_from_digits(bits(x), 9, i);
    }
    assert forall|i: nat| i < 64 implies b9_bit(2 * #[trigger] digit(encode_spec(x, 9), 9, i)) == bit(x, i as int) by {
        lemma_digit_of_from_digits(bits(x), 9, i);
        lemma_bit_range(x, i as int);
    }
    assert(Seq::new(64, |i: int| digit(encode_spec(x, 13), 13, i as nat) % 2) =~= bits(x));
    lemma_bits_value(x, 0);
    assert(bits(x).skip(0) =~= bits(x));
    assert(x >> 0u64 == x) by (bit_vector);
}

/// The parity of a sum of five bits is their XOR.
pub proof fn lemma_parity_of_five(b0: u64, b1: u64, b2: u64, b3: u64, b4: u64)
    requires
        b0 <= 1, b1 <= 1, b2 <= 1, b3 <= 1, b4 <= 1,
    ensures
        (b0 + b1 + b2 + b3 + b4) % 2 == (b0 ^ b1 ^ b2 ^ b3 ^ b4) as int,
{
    let t = (b0 + b1 + b2 + b3 + b4) as u64;
    assert((b0 ^ b1 ^ b2 ^ b3 ^ b4) == t & 1) by (bit_vector)
        requires b0 <= 1, b1 <= 1, b2 <= 1, b3 <= 1, b4 <= 1, t == (b0 + b1 + b2 + b3 + b4) as u64;
    assert(t & 1 == t % 2) by (bit_vector);
}

/// The base-9 table decodes `2a + b + 3c` to `a XOR (NOT b AND c)` for bits `a`, `b`, `c`.
pub proof fn lemma_chi_digit(a: u64, b: u64, c: u64)
    requires
        a <= 1, b <= 1, c <= 1,
    ensures
        b9_bit(2 * a + b + 3 * c) == (a ^ (!b & c)) as int,
{
    assert(b == 0 ==> !b & c == c) by (bit_vector);
    assert(b == 1 ==> !b & c == 0) by (bit_vector)
        requires c <= 1;
    assert(a ^ 0 == a) by (bit_vector);
    assert(a == 0 ==> a ^ 1 == 1) by (bit_vector);
    assert(a == 1 ==> a ^ 1 == 0) by (bit_vector);
}

/// Bit `i` of an XOR is the parity of the two bits.
pub proof fn lemma_bit_xor(x: u64, y: u64, i: int)
    requires
        0 <= i < 64,
    ensures
        bit(x ^ y, i) == (bit(x, i) + bit(y, i)) % 2,
{
    let k = i as u64;
    let bx = (x >> k) & 1;
    let by = (y >> k) & 1;
    assert(((x ^ y) >> k) & 1 == bx ^ by) by (bit_vector)
        requires bx == (x >> k) & 1, by == (y >> k) & 1;
    assert(bx <= 1 && by <= 1) by (bit_vector)
        requires bx == (x >> k) & 1, by == (y >> k) & 1;
    lemma_parity_of_five(bx, by, 0, 0, 0);
    assert(bx ^ by ^ 0 ^ 0 ^ 0 == bx ^ by) by (bit_vector);
}

/// Bit `i` of `!y & z` is set when bit `i` of `y` is clear and that of `z` is set.
pub proof fn lemma_bit_not_and(y: u64, z: u64, i: int)
    requires
        0 <= i < 64,
    ensures
        bit(!y & z, i) == (1 - bit(y, i)) * bit(z, i),
{
    let k = i as u64;
    assert((y >> k) & 1 == 1 ==> ((!y & z) >> k) & 1 == 0) by (bit_vector);
    assert((y >> k) & 1 != 1 ==> ((!y & z) >> k) & 1 == (z >> k) & 1) by (bit_vector);
    lemma_bit_range(y, i);
    lemma_bit_range(z, i);
}

/// Bit `j` of `w` rotated left by `r` is bit `j - r` (mod 64) of `w`.
pub proof fn lemma_bit_rotl(w: u64, r: u32, j: int)
    requires
        r < 64,
        0 <= j < 64,
    ensures
        bit(crate::permutation::rotl(w, r), j) == bit(w, (j + 64 - r) % 64),
{
    if r > 0 {
        let rr = r as u64;
        let k = j as u64;
        if k >= rr {
            assert(((((w << rr) | (w >> ((64 - rr) as u64))) >> k) & 1) == ((w >> ((k - rr) as u64)) & 1)) by (bit_vector)
                requires 0 < rr < 64, rr <= k < 64;
            assert((j + 64 - r) % 64 == j - r);
        } else {
            assert(((((w << rr) | (w >> ((64 - rr) as u64))) >> k) & 1) == ((w >> ((k + 64 - rr) as u64)) & 1)) by (bit_vector)
                requires 0 < rr < 64, k < rr;
        }
    }
}

/// The low digits of `bits(w)` from place `j` up are the value of `w >> j`.
proof fn lemma_bits_value(w: u64, j: int)
    requires
        0 <= j <= 64,
    ensures
        from_digits(bits(w).skip(j), 2) == (w >> (j as u64)) as int,
    decreases 64 - j,
{
    let jj = j as u64;
    if j == 64 {
        assert(w >> 64u64 == 0) by (bit_vector);
    } else {
        lemma_bits_value(w, j + 1);
        assert(bits(w).skip(j).skip(1) =~= bits(w).skip(j + 1));
        let lo = (w >> jj) & 1;
        let hi = w >> ((jj + 1) as u64);
        assert(w >> jj == lo | (hi << 1u64) && hi < 0x8000_0000_0000_0000) by (bit_vector)
            requires jj < 64, lo == (w >> jj) & 1, hi == w >> ((jj + 1) as u64);
        assert(lo <= 1) by (bit_vector)
            requires lo == (w >> jj) & 1;
        assert((lo | (hi << 1u64)) as int == lo + 2 * hi) by (bit_vector)
            requires lo <= 1, hi < 0x8000_0000_0000_0000;
    }
}

/// Distinct words have distinct encodings.
pub proof fn lemma_encode_injective(w1: u64, w2: u64)
    requires
        encode_spec(w1, 13) == encode_spec(w2, 13),
    ensures
        w1 == w2,
{
    assert forall|i: int| 0 <= i < 64 implies bits(w1)[i] == bits(w2)[i] by {
        lemma_encode_decode(w1);
        lemma_encode_decode(w2);
        assert(digit(encode_spec(w1, 13), 13, i as nat) % 2 == bit(w1, i));
        assert(digit(encode_spec(w2, 13), 13, i as nat) % 2 == bit(w2, i));
    }
    assert(bits(w1) =~= bits(w2));
    lemma_bits_value(w1, 0);
    lemma_bits_value(w2, 0);
    assert(bits(w1).skip(0) =~= bits(w1));
    assert(bits(w2).skip(0) =~= bits(w2));
    assert(w1 >> 0u64 == w1 && w2 >> 0u64 == w2) by (bit_vector);
}

} // verus!
