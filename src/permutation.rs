//! Keccak-f[1600] on 64-bit lanes: the five step mappings and the round driver.
//!
//! A state is 25 lanes; the lane at column `x`, row `y` is stored at index `5 * x + y`.
use vstd::prelude::*;
use crate::constants::{round_constant, rotation_offset, round_constant_at, rotation_offset_at, ROUNDS};

verus! {

/// 5x5 grid of 64-bit lanes, lane (x, y) at index `5 * x + y`.
pub type State = [u64; 25];

/// Left rotation of a 64-bit word by `n` places (`n < 64`).
pub open spec fn rotl(w: u64, n: u32) -> u64 {
    if n == 0 { w } else { (w << (n as u64)) | (w >> ((64 - n) as u64)) }
}

/// XOR of the five lanes of column `x`.
pub open spec fn column_parity(s: Seq<u64>, x: int) -> u64 {
    s[5 * x] ^ s[5 * x + 1] ^ s[5 * x + 2] ^ s[5 * x + 3] ^ s[5 * x + 4]
}

pub open spec fn theta_spec(s: Seq<u64>) -> Seq<u64> {
    Seq::new(25, |i: int| s[i] ^ column_parity(s, (i / 5 + 4) % 5) ^ rotl(column_parity(s, (i / 5 + 1) % 5), 1))
}

pub open spec fn rho_spec(s: Seq<u64>) -> Seq<u64> {
    Seq::new(25, |i: int| rotl(s[i], rotation_offset(i / 5, i % 5)))
}

/// Lane (x, y) moves to (y, (2x + 3y) mod 5); read backwards, lane (X, Y) comes from ((X + 3Y) mod 5, X).
pub open spec fn pi_spec(s: Seq<u64>) -> Seq<u64> {
    Seq::new(25, |j: int| s[5 * ((j / 5 + 3 * (j % 5)) % 5) + j / 5])
}

pub open spec fn chi_spec(s: Seq<u64>) -> Seq<u64> {
    Seq::new(25, |i: int| s[i] ^ (!s[5 * ((i / 5 + 1) % 5) + i % 5] & s[5 * ((i / 5 + 2) % 5) + i % 5]))
}

pub open spec fn iota_spec(s: Seq<u64>, rc: u64) -> Seq<u64> {
    s.update(0, s[0] ^ rc)
}

pub open spec fn round_spec(s: Seq<u64>, rc: u64) -> Seq<u64> {
    iota_spec(chi_spec(pi_spec(rho_spec(theta_spec(s)))), rc)
}

/// The first `n` rounds of the permutation applied to `s`.
pub open spec fn rounds_spec(s: Seq<u64>, n: nat) -> Seq<u64>
    decreases n,
{
    if n == 0 { s } else { round_spec(rounds_spec(s, (n - 1) as nat), round_constant(n - 1)) }
}

/// Keccak-f[1600]: all 24 rounds.
pub open spec fn permute_spec(s: Seq<u64>) -> Seq<u64> {
    rounds_spec(s, 24)
}

fn rotl_exec(w: u64, n: u32) -> (r: u64)
    requires
        n < 64,
    ensures
        r == rotl(w, n),
{
    if n == 0 { w } else { (w << n) | (w >> (64 - n)) }
}

/// The binary permutation engine.
pub struct KeccakF {}

impl KeccakF {
    pub fn new() -> KeccakF {
        KeccakF {}
    }

    /// Applies all 24 rounds to `a` in place.
    pub fn permutations(&self, a: &mut State)
        ensures
            final(a)@ == permute_spec(old(a)@),
    {
        let ghost a0 = a@;
        for i in 0..ROUNDS
            invariant
                a@ == rounds_spec(a0, i as nat),
        {
            *a = KeccakF::round_b(*a, round_constant_at(i));
        }
    }

    fn round_b(a: State, rc: u64) -> (r: State)
        ensures
            r@ == round_spec(a@, rc),
    {
        let s1 = KeccakF::theta(a);
        let s2 = KeccakF::rho(s1);
        let s3 = KeccakF::pi(s2);
        let s4 = KeccakF::xi(s3);
        KeccakF::iota(s4, rc)
    }

    fn theta(a: State) -> (out: State)
        ensures
            out@ == theta_spec(a@),
    {
        let mut c: [u64; 5] = [0; 5];
        for x in 0..5
            invariant
                forall|k: int| 0 <= k < x ==> c[k] == column_parity(a@, k),
        {
            c[x] = a[5 * x] ^ a[5 * x + 1] ^ a[5 * x + 2] ^ a[5 * x + 3] ^ a[5 * x + 4];
        }
        let mut out: State = [0; 25];
        for i in 0..25
            invariant
                forall|k: int| 0 <= k < 5 ==> c[k] == column_parity(a@, k),
                forall|j: int| 0 <= j < i ==> out[j] == theta_spec(a@)[j],
        {
            let x = i / 5;
            out[i] = a[i] ^ c[(x + 4) % 5] ^ rotl_exec(c[(x + 1) % 5], 1);
        }
        assert(out@ =~= theta_spec(a@));
        out
    }

    fn rho(a: State) -> (out: State)
        ensures
            out@ == rho_spec(a@),
    {
        let mut out: State = [0; 25];
        for i in 0..25
            invariant
                forall|j: int| 0 <= j < i ==> out[j] == rho_spec(a@)[j],
        {
            out[i] = rotl_exec(a[i], rotation_offset_at(i / 5, i % 5));
        }
        assert(out@ =~= rho_spec(a@));
        out
    }

    fn pi(a: State) -> (out: State)
        ensures
            out@ == pi_spec(a@),
            forall|x: int, y: int| 0 <= x < 5 && 0 <= y < 5
                ==> #[trigger] out@[5 * y + (2 * x + 3 * y) % 5] == a@[5 * x + y],
    {
        let mut out: State = [0; 25];
        for j in 0..25
            invariant
                forall|k: int| 0 <= k < j ==> out[k] == pi_spec(a@)[k],
        {
            let x = j / 5;
            let y = j % 5;
            out[j] = a[5 * ((x + 3 * y) % 5) + x];
        }
        assert(out@ =~= pi_spec(a@));
        assert forall|x: int, y: int| 0 <= x < 5 && 0 <= y < 5
            implies #[trigger] out@[5 * y + (2 * x + 3 * y) % 5] == a@[5 * x + y] by {
            let j = 5 * y + (2 * x + 3 * y) % 5;
            assert(j / 5 == y && j % 5 == (2 * x + 3 * y) % 5);
            assert((y + 3 * ((2 * x + 3 * y) % 5)) % 5 == x) by (nonlinear_arith)
                requires 0 <= x < 5, 0 <= y < 5;
        }
        out
    }

    fn xi(a: State) -> (out: State)
        ensures
            out@ == chi_spec(a@),
    {
        let mut out: State = [0; 25];
        for i in 0..25
            invariant
                forall|j: int| 0 <= j < i ==> out[j] == chi_spec(a@)[j],
        {
            let x = i / 5;
            let y = i % 5;
            out[i] = a[i] ^ (!a[5 * ((x + 1) % 5) + y] & a[5 * ((x + 2) % 5) + y]);
        }
        assert(out@ =~= chi_spec(a@));
        out
    }

    fn iota(a: State, rc: u64) -> (out: State)
        ensures
            out@ == iota_spec(a@, rc),
    {
        let mut out = a;
        out[0] = out[0] ^ rc;
        assert(out@ =~= iota_spec(a@, rc));
        out
    }
}

} // verus!
