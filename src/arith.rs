//! Keccak-f[1600] on redundant-base lanes: theta in base 13, rho (with the change to base 9),
//! pi, chi and iota in base 9, then back to base 13 for the next round. Every bitwise step is
//! an addition or a multiplication by a small constant; a bit is read back from a digit only
//! when a lane changes base.
use vstd::prelude::*;
use crate::codec::{
    Lane, bit, bits, encode_spec, from_digits, digits_in_range, b9_bit, u32s,
    lemma_from_digits_add, lemma_from_digits_scale, lemma_from_digits_shift, lemma_from_digits_pad,
    lemma_bit_range, lemma_bit_xor, lemma_bit_not_and, lemma_bit_rotl,
    lane_from_digits, lane_to_digits, convert_b2_to_b9, convert_b13_coef, convert_b9_coef,
};
use crate::constants::{rotation_offset, round_constant_at, rotation_offset_at, ROUNDS};
use crate::permutation::{
    column_parity, theta_spec, rho_spec, pi_spec, chi_spec, iota_spec, round_spec, rounds_spec,
    permute_spec, rotl,
};

verus! {

/// 5x5 grid of redundant-base lanes, lane (x, y) at index `5 * x + y`.
pub struct State {
    pub lanes: Vec<Lane>,
}

impl State {
    pub open spec fn wf(&self) -> bool {
        self.lanes@.len() == 25
    }

    /// Every lane is the base-`b` encoding of the matching lane of the binary state `s`.
    pub open spec fn encodes(&self, s: Seq<u64>, b: int) -> bool {
        &&& self.lanes@.len() == 25
        &&& s.len() == 25
        &&& forall|i: int| 0 <= i < 25 ==> #[trigger] self.lanes@[i].value() == encode_spec(s[i], b)
    }
}

/// Number of set bits among bit `k` of the five lanes of column `x`.
pub open spec fn column_sum(s: Seq<u64>, x: int, k: int) -> int {
    bit(s[5 * x], k) + bit(s[5 * x + 1], k) + bit(s[5 * x + 2], k) + bit(s[5 * x + 3], k) + bit(s[5 * x + 4], k)
}

pub open spec fn column_sum_digits(s: Seq<u64>, x: int) -> Seq<int> {
    Seq::new(64, |k: int| column_sum(s, x, k))
}

/// Base-13 digits of lane `i` after theta: its own bit, the column sum to the left, and the
/// column sum to the right shifted up one place (65 digits: the top one wraps to bit 0).
pub open spec fn theta_digits(s: Seq<u64>, i: int) -> Seq<int> {
    let x = i / 5;
    Seq::new(65, |k: int|
        (if k < 64 { bit(s[i], k) + column_sum(s, (x + 4) % 5, k) } else { 0 })
        + (if k >= 1 { column_sum(s, (x + 1) % 5, k - 1) } else { 0 }))
}

/// Bits read from 65 theta digits and rotated left by `r`: digit 64 wraps onto digit 0.
pub open spec fn rotated_bits(d: Seq<int>, r: int) -> Seq<int> {
    Seq::new(64, |j: int| {
        let k = (j + 64 - r) % 64;
        if k == 0 { (d[0] + d[64]) % 2 } else { d[k] % 2 }
    })
}

/// Base-9 digits of lane `i` after chi, `2a + b + 3c`, on the base-9 encoding of `t`.
pub open spec fn chi_digits(t: Seq<u64>, i: int) -> Seq<int> {
    let x = i / 5;
    let y = i % 5;
    Seq::new(64, |k: int|
        2 * bit(t[i], k) + bit(t[5 * ((x + 1) % 5) + y], k) + 3 * bit(t[5 * ((x + 2) % 5) + y], k))
}

/// Base-9 digits of lane `i` after chi and iota: lane 0 also gets twice the round constant.
pub open spec fn round_digits(t: Seq<u64>, rc: u64, i: int) -> Seq<int> {
    if i == 0 { Seq::new(64, |k: int| chi_digits(t, 0)[k] + 2 * bit(rc, k)) } else { chi_digits(t, i) }
}

/// Each digit decoded by the base-9 table.
pub open spec fn b9_decoded(d: Seq<int>) -> Seq<int> {
    Seq::new(d.len(), |k: int| b9_bit(d[k]))
}

proof fn lemma_sum_of_five(w0: u64, w1: u64, w2: u64, w3: u64, w4: u64, b: int)
    ensures
        from_digits(bits(w0), b) + from_digits(bits(w1), b) + from_digits(bits(w2), b)
            + from_digits(bits(w3), b) + from_digits(bits(w4), b)
        == from_digits(Seq::new(64, |k: int| bit(w0, k) + bit(w1, k) + bit(w2, k) + bit(w3, k) + bit(w4, k)), b),
{
    let s1 = Seq::new(64, |k: int| bit(w0, k) + bit(w1, k));
    let s2 = Seq::new(64, |k: int| bit(w0, k) + bit(w1, k) + bit(w2, k));
    let s3 = Seq::new(64, |k: int| bit(w0, k) + bit(w1, k) + bit(w2, k) + bit(w3, k));
    let s4 = Seq::new(64, |k: int| bit(w0, k) + bit(w1, k) + bit(w2, k) + bit(w3, k) + bit(w4, k));
    lemma_from_digits_add(bits(w0), bits(w1), b);
    assert(Seq::new(64, |i: int| bits(w0)[i] + bits(w1)[i]) =~= s1);
    lemma_from_digits_add(s1, bits(w2), b);
    assert(Seq::new(64, |i: int| s1[i] + bits(w2)[i]) =~= s2);
    lemma_from_digits_add(s2, bits(w3), b);
    assert(Seq::new(64, |i: int| s2[i] + bits(w3)[i]) =~= s3);
    lemma_from_digits_add(s3, bits(w4), b);
    assert(Seq::new(64, |i: int| s3[i] + bits(w4)[i]) =~= s4);
}

proof fn lemma_theta_value(s: Seq<u64>, i: int)
    requires
        s.len() == 25,
        0 <= i < 25,
    ensures
        from_digits(bits(s[i]), 13) + from_digits(column_sum_digits(s, (i / 5 + 4) % 5), 13)
            + from_digits(column_sum_digits(s, (i / 5 + 1) % 5), 13) * 13
        == from_digits(theta_digits(s, i), 13),
{
    let x = i / 5;
    let own = bits(s[i]);
    let left = column_sum_digits(s, (x + 4) % 5);
    let right = column_sum_digits(s, (x + 1) % 5);
    lemma_from_digits_pad(own, 13);
    lemma_from_digits_pad(left, 13);
    lemma_from_digits_shift(right, 13);
    let a = own.push(0);
    let l = left.push(0);
    let r = seq![0int] + right;
    lemma_from_digits_add(a, l, 13);
    let al = Seq::new(65, |k: int| a[k] + l[k]);
    assert(Seq::new(a.len(), |k: int| a[k] + l[k]) =~= al);
    lemma_from_digits_add(al, r, 13);
    assert(Seq::new(al.len(), |k: int| al[k] + r[k]) =~= theta_digits(s, i));
}

/// Theta digits are below 13, and the two that meet at bit 0 sum below 13.
proof fn lemma_theta_digits_range(s: Seq<u64>, i: int)
    requires
        s.len() == 25,
        0 <= i < 25,
    ensures
        theta_digits(s, i).len() == 65,
        digits_in_range(theta_digits(s, i), 13),
        theta_digits(s, i)[0] + theta_digits(s, i)[64] < 13,
{
    assert forall|j: int, k: int| 0 <= j < 25 && 0 <= k < 64 implies 0 <= #[trigger] bit(s[j], k) <= 1 by {
        lemma_bit_range(s[j], k);
    }
}

/// Sum of the values of the five lanes of column `x`.
pub open spec fn column_value(a: State, x: int) -> int {
    a.lanes@[5 * x].value() + a.lanes@[5 * x + 1].value() + a.lanes@[5 * x + 2].value()
        + a.lanes@[5 * x + 3].value() + a.lanes@[5 * x + 4].value()
}

/// Theta on base-13 lanes: column sums, then each lane plus its left column sum plus 13 times
/// its right column sum.
fn theta(a: &State) -> (out: State)
    requires
        a.wf(),
    ensures
        out.wf(),
        forall|i: int| 0 <= i < 25 ==> #[trigger] out.lanes@[i].value()
            == a.lanes@[i].value() + column_value(*a, (i / 5 + 4) % 5) + 13 * column_value(*a, (i / 5 + 1) % 5),
{
    let mut c: Vec<Lane> = Vec::new();
    for x in 0..5
        invariant
            c@.len() == x,
            a.wf(),
            forall|k: int| 0 <= k < x ==> #[trigger] c@[k].value() == column_value(*a, k),
    {
        let t = a.lanes[5 * x].plus(&a.lanes[5 * x + 1]).plus(&a.lanes[5 * x + 2])
            .plus(&a.lanes[5 * x + 3]).plus(&a.lanes[5 * x + 4]);
        c.push(t);
    }
    let mut out: Vec<Lane> = Vec::new();
    for i in 0..25
        invariant
            out@.len() == i,
            c@.len() == 5,
            a.wf(),
            forall|k: int| 0 <= k < 5 ==> #[trigger] c@[k].value() == column_value(*a, k),
            forall|j: int| 0 <= j < i ==> #[trigger] out@[j].value()
                == a.lanes@[j].value() + column_value(*a, (j / 5 + 4) % 5) + 13 * column_value(*a, (j / 5 + 1) % 5),
    {
        let x = i / 5;
        let t = a.lanes[i].plus(&c[(x + 4) % 5]).plus(&c[(x + 1) % 5].times(13));
        out.push(t);
    }
    State { lanes: out }
}

/// On the base-13 encoding of `s`, theta's lanes have the digits `theta_digits(s, i)`.
proof fn lemma_theta_on_encoding(a: State, s: Seq<u64>, i: int)
    requires
        a.encodes(s, 13),
        0 <= i < 25,
    ensures
        a.lanes@[i].value() + column_value(a, (i / 5 + 4) % 5) + 13 * column_value(a, (i / 5 + 1) % 5)
            == from_digits(theta_digits(s, i), 13),
{
    assert forall|x: int| 0 <= x < 5 implies column_value(a, x) == from_digits(#[trigger] column_sum_digits(s, x), 13) by {
        assert(a.lanes@[5 * x].value() == encode_spec(s[5 * x], 13));
        assert(a.lanes@[5 * x + 1].value() == encode_spec(s[5 * x + 1], 13));
        assert(a.lanes@[5 * x + 2].value() == encode_spec(s[5 * x + 2], 13));
        assert(a.lanes@[5 * x + 3].value() == encode_spec(s[5 * x + 3], 13));
        assert(a.lanes@[5 * x + 4].value() == encode_spec(s[5 * x + 4], 13));
        lemma_sum_of_five(s[5 * x], s[5 * x + 1], s[5 * x + 2], s[5 * x + 3], s[5 * x + 4], 13);
        assert(column_sum_digits(s, x) =~= Seq::new(64, |k: int| bit(s[5 * x], k) + bit(s[5 * x + 1], k)
            + bit(s[5 * x + 2], k) + bit(s[5 * x + 3], k) + bit(s[5 * x + 4], k)));
    }
    assert(a.lanes@[i].value() == encode_spec(s[i], 13));
    assert(column_value(a, (i / 5 + 4) % 5) == from_digits(column_sum_digits(s, (i / 5 + 4) % 5), 13));
    assert(column_value(a, (i / 5 + 1) % 5) == from_digits(column_sum_digits(s, (i / 5 + 1) % 5), 13));
    lemma_theta_value(s, i);
}

proof fn lemma_column_parity_bit(s: Seq<u64>, x: int, k: int)
    requires
        s.len() == 25,
        0 <= x < 5,
        0 <= k < 64,
    ensures
        bit(column_parity(s, x), k) == column_sum(s, x, k) % 2,
{
    let (a0, a1, a2, a3, a4) = (s[5 * x], s[5 * x + 1], s[5 * x + 2], s[5 * x + 3], s[5 * x + 4]);
    lemma_bit_xor(a0, a1, k);
    lemma_bit_xor(a0 ^ a1, a2, k);
    lemma_bit_xor(a0 ^ a1 ^ a2, a3, k);
    lemma_bit_xor(a0 ^ a1 ^ a2 ^ a3, a4, k);
    lemma_bit_range(a0, k);
    lemma_bit_range(a1, k);
    lemma_bit_range(a2, k);
    lemma_bit_range(a3, k);
    lemma_bit_range(a4, k);
}

/// Parity decodes theta's digits to the bits of the binary theta; at bit 0 the digit that
/// wrapped round (digit 64) is added in first.
proof fn lemma_theta_bit(s: Seq<u64>, i: int, k: int)
    requires
        s.len() == 25,
        0 <= i < 25,
        0 <= k < 64,
    ensures
        (if k == 0 { (theta_digits(s, i)[0] + theta_digits(s, i)[64]) % 2 } else { theta_digits(s, i)[k] % 2 })
            == bit(theta_spec(s)[i], k),
{
    let x = i / 5;
    let p1 = column_parity(s, (x + 4) % 5);
    let p2 = column_parity(s, (x + 1) % 5);
    let m = (k + 63) % 64;
    lemma_bit_xor(s[i], p1, k);
    lemma_bit_xor(s[i] ^ p1, rotl(p2, 1), k);
    lemma_bit_rotl(p2, 1, k);
    lemma_column_parity_bit(s, (x + 4) % 5, k);
    lemma_column_parity_bit(s, (x + 1) % 5, m);
    lemma_bit_range(s[i], k);
    assert(theta_spec(s)[i] == s[i] ^ p1 ^ rotl(p2, 1));
    let b = bit(s[i], k);
    let c1 = column_sum(s, (x + 4) % 5, k);
    let c2 = column_sum(s, (x + 1) % 5, m);
    assert(bit(theta_spec(s)[i], k) == ((b + c1 % 2) % 2 + c2 % 2) % 2);
    vstd::arithmetic::div_mod::lemma_add_mod_noop(b, c1, 2);
    vstd::arithmetic::div_mod::lemma_mod_twice(b, 2);
    vstd::arithmetic::div_mod::lemma_add_mod_noop(b + c1, c2, 2);
    assert((b + c1 % 2) % 2 == (b + c1) % 2) by {
        vstd::arithmetic::div_mod::lemma_add_mod_noop(b, c1 % 2, 2);
        vstd::arithmetic::div_mod::lemma_mod_twice(c1, 2);
    }
    vstd::arithmetic::div_mod::lemma_mod_twice(b + c1, 2);
    if k == 0 {
        assert(theta_digits(s, i)[0] + theta_digits(s, i)[64] == b + c1 + c2);
    } else {
        assert(theta_digits(s, i)[k] == b + c1 + c2);
    }
}

/// 13-to-9 change of base with rotation: each base-13 digit is decoded by parity and written
/// as the base-9 digit `rot` places higher (mod 64); digits 0 and 64 are added before decoding.
fn convert_b13_lane_to_b9(x: Lane, rot: u32, Ghost(d): Ghost<Seq<int>>) -> (r: Lane)
    requires
        rot < 64,
        d.len() == 65,
        digits_in_range(d, 13),
        d[0] + d[64] < 13,
        x.value() == from_digits(d, 13),
    ensures
        r.value() == from_digits(rotated_bits(d, rot as int), 9),
{
    let ds = lane_to_digits(&x, 13, 65, Ghost(d));
    let mut e: Vec<u32> = Vec::new();
    for j in 0..64
        invariant
            rot < 64,
            d.len() == 65,
            digits_in_range(d, 13),
            d[0] + d[64] < 13,
            u32s(ds@) == d,
            u32s(e@) =~= rotated_bits(d, rot as int).subrange(0, j as int),
    {
        assert(ds@.len() == 65);
        let k = (j + 64 - rot as usize) % 64;
        let b = if k == 0 {
            assert(u32s(ds@)[0] == ds@[0] && u32s(ds@)[64] == ds@[64]);
            convert_b13_coef((ds[0] + ds[64]) as u64)
        } else {
            assert(u32s(ds@)[k as int] == ds@[k as int]);
            convert_b13_coef(ds[k] as u64)
        };
        let ghost prev = e@;
        e.push(b as u32);
        assert(u32s(e@) =~= u32s(prev).push(b as int));
        assert(rotated_bits(d, rot as int).subrange(0, j + 1)
            =~= rotated_bits(d, rot as int).subrange(0, j as int).push(rotated_bits(d, rot as int)[j as int]));
    }
    assert(u32s(e@) =~= rotated_bits(d, rot as int));
    lane_from_digits(&e, 9)
}

/// Rho on base-13 lanes, giving base-9 lanes: lane `i` with the 65 in-range digits `d[i]`
/// (digits 0 and 64 summing below 13) becomes the base-9 lane of its parity bits rotated left
/// by the lane's offset, digit 64 wrapping onto bit 0.
fn rho(a: &State, Ghost(d): Ghost<Seq<Seq<int>>>) -> (out: State)
    requires
        a.wf(),
        d.len() == 25,
        forall|i: int| 0 <= i < 25 ==> {
            &&& (#[trigger] d[i]).len() == 65
            &&& digits_in_range(d[i], 13)
            &&& d[i][0] + d[i][64] < 13
            &&& a.lanes@[i].value() == from_digits(d[i], 13)
        },
    ensures
        out.wf(),
        forall|i: int| 0 <= i < 25 ==> #[trigger] out.lanes@[i].value()
            == from_digits(rotated_bits(d[i], rotation_offset(i / 5, i % 5) as int), 9),
{
    let mut out: Vec<Lane> = Vec::new();
    for i in 0..25
        invariant
            a.wf(),
            d.len() == 25,
            forall|j: int| 0 <= j < 25 ==> {
                &&& (#[trigger] d[j]).len() == 65
                &&& digits_in_range(d[j], 13)
                &&& d[j][0] + d[j][64] < 13
                &&& a.lanes@[j].value() == from_digits(d[j], 13)
            },
            out@.len() == i,
            forall|j: int| 0 <= j < i ==> #[trigger] out@[j].value()
                == from_digits(rotated_bits(d[j], rotation_offset(j / 5, j % 5) as int), 9),
    {
        let rot = rotation_offset_at(i / 5, i % 5);
        let ghost di = d[i as int];
        let lane = convert_b13_lane_to_b9(a.lanes[i].copy(), rot, Ghost(di));
        out.push(lane);
    }
    State { lanes: out }
}

/// Rotating theta's parity bits is rho after theta, bit for bit.
proof fn lemma_rho_on_theta(s: Seq<u64>, i: int)
    requires
        s.len() == 25,
        0 <= i < 25,
    ensures
        rotated_bits(theta_digits(s, i), rotation_offset(i / 5, i % 5) as int)
            == bits(rho_spec(theta_spec(s))[i]),
{
    let t = rho_spec(theta_spec(s));
    let rot = rotation_offset(i / 5, i % 5);
    let d = theta_digits(s, i);
    assert(rot < 64) by {
        assert(0 <= i / 5 < 5 && 0 <= i % 5 < 5);
    }
    assert(t[i] == rotl(theta_spec(s)[i], rot));
    assert forall|j: int| 0 <= j < 64 implies #[trigger] rotated_bits(d, rot as int)[j] == bits(t[i])[j] by {
        let k = (j + 64 - rot) % 64;
        lemma_bit_rotl(theta_spec(s)[i], rot, j);
        lemma_theta_bit(s, i, k);
        assert(bits(t[i])[j] == bit(t[i], j));
    }
    assert(rotated_bits(d, rot as int) =~= bits(t[i]));
}

/// Pi on base-9 lanes: each lane moves unchanged from (x, y) to (y, (2x + 3y) mod 5).
fn pi(a: &State) -> (out: State)
    requires
        a.wf(),
    ensures
        out.wf(),
        forall|j: int| 0 <= j < 25 ==> #[trigger] out.lanes@[j].value()
            == a.lanes@[5 * ((j / 5 + 3 * (j % 5)) % 5) + j / 5].value(),
        forall|x: int, y: int| 0 <= x < 5 && 0 <= y < 5
            ==> #[trigger] out.lanes@[5 * y + (2 * x + 3 * y) % 5].value() == a.lanes@[5 * x + y].value(),
{
    let mut out: Vec<Lane> = Vec::new();
    for j in 0..25
        invariant
            a.wf(),
            out@.len() == j,
            forall|k: int| 0 <= k < j ==> #[trigger] out@[k].value()
                == a.lanes@[5 * ((k / 5 + 3 * (k % 5)) % 5) + k / 5].value(),
    {
        let x = j / 5;
        let y = j % 5;
        out.push(a.lanes[5 * ((x + 3 * y) % 5) + x].copy());
    }
    let out = State { lanes: out };
    assert forall|x: int, y: int| 0 <= x < 5 && 0 <= y < 5
        implies #[trigger] out.lanes@[5 * y + (2 * x + 3 * y) % 5].value() == a.lanes@[5 * x + y].value() by {
        let j = 5 * y + (2 * x + 3 * y) % 5;
        assert(j / 5 == y && j % 5 == (2 * x + 3 * y) % 5);
        assert((y + 3 * ((2 * x + 3 * y) % 5)) % 5 == x) by (nonlinear_arith)
            requires 0 <= x < 5, 0 <= y < 5;
    }
    out
}

proof fn lemma_chi_value(t: Seq<u64>, i: int)
    requires
        t.len() == 25,
        0 <= i < 25,
    ensures
        2 * encode_spec(t[i], 9) + encode_spec(t[5 * ((i / 5 + 1) % 5) + i % 5], 9)
            + 3 * encode_spec(t[5 * ((i / 5 + 2) % 5) + i % 5], 9)
        == from_digits(chi_digits(t, i), 9),
{
    let a = bits(t[i]);
    let b = bits(t[5 * ((i / 5 + 1) % 5) + i % 5]);
    let c = bits(t[5 * ((i / 5 + 2) % 5) + i % 5]);
    lemma_from_digits_scale(a, 2, 9);
    lemma_from_digits_scale(c, 3, 9);
    let a2 = Seq::new(64, |k: int| 2 * a[k]);
    let c3 = Seq::new(64, |k: int| 3 * c[k]);
    assert(Seq::new(a.len(), |k: int| 2 * a[k]) =~= a2);
    assert(Seq::new(c.len(), |k: int| 3 * c[k]) =~= c3);
    lemma_from_digits_add(a2, b, 9);
    let ab = Seq::new(64, |k: int| a2[k] + b[k]);
    assert(Seq::new(a2.len(), |k: int| a2[k] + b[k]) =~= ab);
    lemma_from_digits_add(ab, c3, 9);
    assert(Seq::new(ab.len(), |k: int| ab[k] + c3[k]) =~= chi_digits(t, i));
}

/// Chi on base-9 lanes: lane (x, y) becomes 2 (x, y) + (x + 1, y) + 3 (x + 2, y).
fn xi(a: &State) -> (out: State)
    requires
        a.wf(),
    ensures
        out.wf(),
        forall|i: int| 0 <= i < 25 ==> #[trigger] out.lanes@[i].value()
            == 2 * a.lanes@[i].value() + a.lanes@[5 * ((i / 5 + 1) % 5) + i % 5].value()
                + 3 * a.lanes@[5 * ((i / 5 + 2) % 5) + i % 5].value(),
{
    let mut out: Vec<Lane> = Vec::new();
    for i in 0..25
        invariant
            a.wf(),
            out@.len() == i,
            forall|k: int| 0 <= k < i ==> #[trigger] out@[k].value()
                == 2 * a.lanes@[k].value() + a.lanes@[5 * ((k / 5 + 1) % 5) + k % 5].value()
                    + 3 * a.lanes@[5 * ((k / 5 + 2) % 5) + k % 5].value(),
    {
        let x = i / 5;
        let y = i % 5;
        let lane = a.lanes[i].times(2).plus(&a.lanes[5 * ((x + 1) % 5) + y])
            .plus(&a.lanes[5 * ((x + 2) % 5) + y].times(3));
        out.push(lane);
    }
    State { lanes: out }
}

/// Iota on base-9 lanes: lane (0, 0) gains twice the base-9 encoding of the round constant;
/// the other lanes keep their values.
fn iota(a: State, rc: u64) -> (out: State)
    requires
        a.wf(),
    ensures
        out.wf(),
        out.lanes@[0].value() == a.lanes@[0].value() + 2 * encode_spec(rc, 9),
        forall|i: int| 0 < i < 25 ==> #[trigger] out.lanes@[i].value() == a.lanes@[i].value(),
{
    let mut lanes = a.lanes;
    let first = lanes[0].plus(&convert_b2_to_b9(rc).times(2));
    lanes.set(0, first);
    State { lanes: lanes }
}

/// Twice the encoded round constant added to chi's lane 0 gives the digits of iota's lane 0.
proof fn lemma_iota_value(t: Seq<u64>, rc: u64)
    ensures
        from_digits(chi_digits(t, 0), 9) + 2 * encode_spec(rc, 9) == from_digits(round_digits(t, rc, 0), 9),
{
    let c = chi_digits(t, 0);
    lemma_from_digits_scale(bits(rc), 2, 9);
    let r2 = Seq::new(64, |k: int| 2 * bits(rc)[k]);
    assert(Seq::new(bits(rc).len(), |k: int| 2 * bits(rc)[k]) =~= r2);
    lemma_from_digits_add(c, r2, 9);
    assert(Seq::new(c.len(), |k: int| c[k] + r2[k]) =~= round_digits(t, rc, 0));
}

/// 9-to-13 change of base: each base-9 digit is decoded by the table and written as the
/// base-13 digit in the same place.
fn convert_b9_lane_to_b13(x: Lane, Ghost(d): Ghost<Seq<int>>) -> (r: Lane)
    requires
        d.len() == 64,
        digits_in_range(d, 9),
        x.value() == from_digits(d, 9),
    ensures
        r.value() == from_digits(b9_decoded(d), 13),
{
    let ds = lane_to_digits(&x, 9, 64, Ghost(d));
    let mut e: Vec<u32> = Vec::new();
    for k in 0..64
        invariant
            d.len() == 64,
            digits_in_range(d, 9),
            u32s(ds@) == d,
            u32s(e@) =~= b9_decoded(d).subrange(0, k as int),
    {
        assert(ds@.len() == 64);
        assert(u32s(ds@)[k as int] == ds@[k as int]);
        let b = convert_b9_coef(ds[k] as u64);
        let ghost prev = e@;
        e.push(b as u32);
        assert(u32s(e@) =~= u32s(prev).push(b as int));
        assert(b9_decoded(d).subrange(0, k + 1) =~= b9_decoded(d).subrange(0, k as int).push(b9_decoded(d)[k as int]));
    }
    assert(u32s(e@) =~= b9_decoded(d));
    lane_from_digits(&e, 13)
}

/// The base-9 table on a chi digit, with or without twice a round-constant bit added.
proof fn lemma_b9_chi(a: int, b: int, c: int, r: int)
    requires
        0 <= a <= 1, 0 <= b <= 1, 0 <= c <= 1, 0 <= r <= 1,
    ensures
        b9_bit(2 * a + b + 3 * c) == (a + (1 - b) * c) % 2,
        b9_bit(2 * a + b + 3 * c + 2 * r) == ((a + (1 - b) * c) % 2 + r) % 2,
{
    if a == 0 {
        if b == 0 {
            if c == 0 { } else { }
        } else {
            if c == 0 { } else { }
        }
    } else {
        if b == 0 {
            if c == 0 { } else { }
        } else {
            if c == 0 { } else { }
        }
    }
}

/// After chi and iota the base-9 digits are below 9, and the table decodes each to the bit of
/// the binary round.
proof fn lemma_round_bits(t: Seq<u64>, rc: u64, i: int)
    requires
        t.len() == 25,
        0 <= i < 25,
    ensures
        round_digits(t, rc, i).len() == 64,
        digits_in_range(round_digits(t, rc, i), 9),
        b9_decoded(round_digits(t, rc, i)) == bits(iota_spec(chi_spec(t), rc)[i]),
{
    let x = i / 5;
    let y = i % 5;
    let i1 = 5 * ((x + 1) % 5) + y;
    let i2 = 5 * ((x + 2) % 5) + y;
    let c = chi_spec(t);
    assert forall|k: int| 0 <= k < 64 implies
        0 <= #[trigger] round_digits(t, rc, i)[k] < 9
        && b9_bit(round_digits(t, rc, i)[k]) == bit(iota_spec(c, rc)[i], k) by {
        lemma_bit_range(t[i], k);
        lemma_bit_range(t[i1], k);
        lemma_bit_range(t[i2], k);
        lemma_bit_range(rc, k);
        lemma_bit_not_and(t[i1], t[i2], k);
        lemma_bit_xor(t[i], !t[i1] & t[i2], k);
        assert(c[i] == t[i] ^ (!t[i1] & t[i2]));
        let (ba, bb, bc, br) = (bit(t[i], k), bit(t[i1], k), bit(t[i2], k), bit(rc, k));
        lemma_b9_chi(ba, bb, bc, br);
        assert(chi_digits(t, i)[k] == 2 * ba + bb + 3 * bc);
        assert(bit(c[i], k) == (ba + (1 - bb) * bc) % 2);
        if i == 0 {
            lemma_bit_xor(c[0], rc, k);
            assert(round_digits(t, rc, i)[k] == 2 * ba + bb + 3 * bc + 2 * br);
        }
    }
    assert(b9_decoded(round_digits(t, rc, i)) =~= bits(iota_spec(c, rc)[i]));
}

/// One round on the base-13 encoding of `s`; the result is in base 9, and its digits decode
/// by the base-9 table to the bits of the binary round.
fn round_b(a: State, rc: u64, Ghost(s): Ghost<Seq<u64>>) -> (out: State)
    requires
        a.encodes(s, 13),
    ensures
        out.wf(),
        forall|i: int| 0 <= i < 25 ==> #[trigger] out.lanes@[i].value()
            == from_digits(round_digits(pi_spec(rho_spec(theta_spec(s))), rc, i), 9),
        forall|i: int| 0 <= i < 25 ==> {
            &&& digits_in_range(#[trigger] round_digits(pi_spec(rho_spec(theta_spec(s))), rc, i), 9)
            &&& b9_decoded(round_digits(pi_spec(rho_spec(theta_spec(s))), rc, i)) == bits(round_spec(s, rc)[i])
        },
{
    let ghost t0 = rho_spec(theta_spec(s));
    let ghost t = pi_spec(t0);
    let ghost d = Seq::new(25, |i: int| theta_digits(s, i));
    let s1 = theta(&a);
    proof {
        assert forall|i: int| 0 <= i < 25 implies {
            &&& (#[trigger] d[i]).len() == 65
            &&& digits_in_range(d[i], 13)
            &&& d[i][0] + d[i][64] < 13
            &&& s1.lanes@[i].value() == from_digits(d[i], 13)
        } by {
            lemma_theta_on_encoding(a, s, i);
            lemma_theta_digits_range(s, i);
        }
    }
    let s2 = rho(&s1, Ghost(d));
    proof {
        assert forall|i: int| 0 <= i < 25 implies #[trigger] s2.lanes@[i].value() == encode_spec(t0[i], 9) by {
            lemma_rho_on_theta(s, i);
        }
    }
    let s3 = pi(&s2);
    assert(s3.encodes(t, 9));
    let s4 = xi(&s3);
    proof {
        assert forall|i: int| 0 <= i < 25 implies #[trigger] s4.lanes@[i].value() == from_digits(chi_digits(t, i), 9) by {
            assert(s3.lanes@[i].value() == encode_spec(t[i], 9));
            assert(s3.lanes@[5 * ((i / 5 + 1) % 5) + i % 5].value() == encode_spec(t[5 * ((i / 5 + 1) % 5) + i % 5], 9));
            assert(s3.lanes@[5 * ((i / 5 + 2) % 5) + i % 5].value() == encode_spec(t[5 * ((i / 5 + 2) % 5) + i % 5], 9));
            lemma_chi_value(t, i);
        }
        lemma_iota_value(t, rc);
    }
    let out = iota(s4, rc);
    proof {
        assert(round_spec(s, rc) == iota_spec(chi_spec(t), rc));
        assert forall|i: int| 0 <= i < 25 implies {
            &&& digits_in_range(#[trigger] round_digits(t, rc, i), 9)
            &&& b9_decoded(round_digits(t, rc, i)) == bits(round_spec(s, rc)[i])
        } by {
            lemma_round_bits(t, rc, i);
        }
        assert forall|i: int| 0 <= i < 25 implies #[trigger] out.lanes@[i].value()
            == from_digits(round_digits(t, rc, i), 9) by {
            if i != 0 {
                assert(s4.lanes@[i].value() == from_digits(chi_digits(t, i), 9));
            }
        }
    }
    out
}

/// Brings the base-9 lanes after a round back to base 13.
fn to_base13(out_b9: State, rc: u64, Ghost(t): Ghost<Seq<u64>>) -> (next: State)
    requires
        out_b9.wf(),
        t.len() == 25,
        forall|j: int| 0 <= j < 25 ==> #[trigger] out_b9.lanes@[j].value() == from_digits(round_digits(t, rc, j), 9),
    ensures
        next.encodes(iota_spec(chi_spec(t), rc), 13),
{
    let mut next: Vec<Lane> = Vec::new();
    for i in 0..25
        invariant
            out_b9.wf(),
            t.len() == 25,
            forall|j: int| 0 <= j < 25 ==> #[trigger] out_b9.lanes@[j].value()
                == from_digits(round_digits(t, rc, j), 9),
            next@.len() == i,
            forall|j: int| 0 <= j < i ==> #[trigger] next@[j].value()
                == encode_spec(iota_spec(chi_spec(t), rc)[j], 13),
    {
        proof {
            lemma_round_bits(t, rc, i as int);
        }
        next.push(convert_b9_lane_to_b13(out_b9.lanes[i].copy(), Ghost(round_digits(t, rc, i as int))));
    }
    State { lanes: next }
}

/// One whole round on base-13 lanes, back in base 13.
fn round_13(a: &State, rc: u64, Ghost(s): Ghost<Seq<u64>>) -> (out: State)
    requires
        a.encodes(s, 13),
    ensures
        out.encodes(round_spec(s, rc), 13),
{
    let ghost t = pi_spec(rho_spec(theta_spec(s)));
    let copy = a.clone_state();
    assert(copy.encodes(s, 13));
    let out_b9 = round_b(copy, rc, Ghost(s));
    let out = to_base13(out_b9, rc, Ghost(t));
    assert(round_spec(s, rc) == iota_spec(chi_spec(t), rc));
    out
}

/// The redundant-base permutation engine.
pub struct KeccakFArith {}

impl KeccakFArith {
    pub fn new() -> KeccakFArith {
        KeccakFArith {}
    }

    /// Runs the 24 rounds on a grid of base-13 lanes. Each lane must be the base-13 encoding
    /// of a 64-bit word; the result encodes, lane by lane, what the binary permutation gives
    /// on those words.
    pub fn permutations(&self, a: &mut State)
        requires
            exists|s: Seq<u64>| old(a).encodes(s, 13),
        ensures
            forall|s: Seq<u64>| old(a).encodes(s, 13) ==> final(a).encodes(permute_spec(s), 13),
    {
        let ghost s0 = choose|s: Seq<u64>| old(a).encodes(s, 13);
        for r in 0..ROUNDS
            invariant
                a.encodes(rounds_spec(s0, r as nat), 13),
        {
            let rc = round_constant_at(r);
            *a = round_13(a, rc, Ghost(rounds_spec(s0, r as nat)));
        }
        proof {
            lemma_encodes_unique(*old(a), s0);
        }
    }
}

impl Default for State {
    /// The grid of 25 zero lanes.
    fn default() -> (r: State)
        ensures
            r.wf(),
            forall|i: int| 0 <= i < 25 ==> #[trigger] r.lanes@[i].value() == 0,
    {
        let mut lanes: Vec<Lane> = Vec::new();
        for i in 0..25
            invariant
                lanes@.len() == i,
                forall|j: int| 0 <= j < i ==> #[trigger] lanes@[j].value() == 0,
        {
            lanes.push(Lane::zero());
        }
        State { lanes }
    }
}

impl State {
    /// A grid with the same lane values.
    pub fn clone_state(&self) -> (r: State)
        ensures
            r.wf() == self.wf(),
            r.lanes@.len() == self.lanes@.len(),
            forall|i: int| 0 <= i < self.lanes@.len() ==> #[trigger] r.lanes@[i].value() == self.lanes@[i].value(),
    {
        let mut lanes: Vec<Lane> = Vec::new();
        for i in 0..self.lanes.len()
            invariant
                lanes@.len() == i,
                forall|j: int| 0 <= j < i ==> #[trigger] lanes@[j].value() == self.lanes@[j].value(),
        {
            lanes.push(self.lanes[i].copy());
        }
        State { lanes }
    }
}

/// A grid encodes at most one binary state.
pub proof fn lemma_encodes_unique(a: State, s: Seq<u64>)
    requires
        a.encodes(s, 13),
    ensures
        forall|s2: Seq<u64>| a.encodes(s2, 13) ==> s2 == s,
{
    assert forall|s2: Seq<u64>| a.encodes(s2, 13) implies s2 == s by {
        assert forall|i: int| 0 <= i < 25 implies s2[i] == s[i] by {
            assert(a.lanes@[i].value() == encode_spec(s2[i], 13));
            crate::codec::lemma_encode_injective(s2[i], s[i]);
        }
        assert(s2 =~= s);
    }
}

} // verus!
