//! The sponge construction over Keccak-f[1600], Keccak's own padding (not SHA-3's
//! domain-separated one), and the Keccak-256 hash built from them.
use vstd::prelude::*;
use crate::permutation::{KeccakF, State, permute_spec};

verus! {

/// The little-endian 64-bit word made of the `n` bytes of `m` that start at `off`.
pub open spec fn word_le(m: Seq<u8>, off: int, n: nat) -> u64
    decreases n,
{
    if n == 0 {
        0
    } else {
        word_le(m, off, (n - 1) as nat) | ((m[off + n - 1] as u64) << (8 * (n - 1)) as u64)
    }
}

/// Index of the lane that word `w` of a block is XORed into (words fill x first, then y),
/// which is also the place in that order of the lane stored at index `w`: the map is its own
/// inverse on `0..25`.
pub open spec fn fill_lane(w: int) -> int {
    5 * (w % 5) + w / 5
}

/// State after XORing block `k` (of `rate` bytes) of `m` into `s`.
pub open spec fn xor_block(s: Seq<u64>, m: Seq<u8>, rate: int, k: int) -> Seq<u64> {
    Seq::new(25, |i: int|
        if fill_lane(i) < rate / 8 { s[i] ^ word_le(m, k * rate + 8 * fill_lane(i), 8) } else { s[i] })
}

/// State after absorbing the first `n` blocks of `m` into `s`.
pub open spec fn absorb_spec(s: Seq<u64>, m: Seq<u8>, rate: int, n: nat) -> Seq<u64>
    decreases n,
{
    if n == 0 {
        s
    } else {
        permute_spec(xor_block(absorb_spec(s, m, rate, (n - 1) as nat), m, rate, n - 1))
    }
}

/// Byte `b` (0 = least significant) of word `w`.
pub open spec fn word_byte(w: u64, b: int) -> u8 {
    ((w >> (8 * b) as u64) & 0xff) as u8
}

/// `len` output bytes read from `s`: lanes row by row (y outer, x inner), each as 8
/// little-endian bytes, zero beyond the 25 lanes.
pub open spec fn squeeze_spec(s: Seq<u64>, len: nat) -> Seq<u8> {
    Seq::new(len, |k: int|
        if k / 8 < 25 { word_byte(s[fill_lane(k / 8)], k % 8) } else { 0u8 })
}

/// Keccak's padding of a message of `len` bytes to a multiple of `rate`.
pub open spec fn pad_spec(len: int, rate: int) -> Seq<u8> {
    let p = rate - len % rate;
    if p == 1 {
        seq![0x81u8]
    } else {
        seq![0x01u8] + Seq::new((p - 2) as nat, |i: int| 0u8) + seq![0x80u8]
    }
}

/// Rate of Keccak-256, in bytes.
pub const RATE: usize = 136;

/// Capacity of Keccak-256, in bytes.
pub const CAPACITY: usize = 64;

/// The zero state.
pub open spec fn zero_state() -> Seq<u64> {
    Seq::new(25, |i: int| 0u64)
}

/// State of a fresh hasher after one `update` with `m`.
pub open spec fn ingest_spec(s: Seq<u64>, m: Seq<u8>) -> Seq<u64> {
    let padded = m + pad_spec(m.len() as int, RATE as int);
    absorb_spec(s, padded, RATE as int, (padded.len() as int / (RATE as int)) as nat)
}

/// Keccak-256 of `m`.
pub open spec fn keccak256_spec(m: Seq<u8>) -> Seq<u8> {
    squeeze_spec(ingest_spec(zero_state(), m), (CAPACITY / 2) as nat)
}

/// Sponge with a rate and a capacity in bytes.
pub struct Sponge {
    pub rate: usize,
    pub capacity: usize,
    pub keccak_f: KeccakF,
}

impl Sponge {
    /// Rate and capacity fill the 200-byte state, and the rate is a whole number of lanes.
    pub open spec fn wf(&self) -> bool {
        &&& 0 < self.rate
        &&& self.rate % 8 == 0
        &&& self.rate + self.capacity == 200
    }

    pub fn new(rate: usize, capacity: usize) -> (r: Sponge)
        requires
            0 < rate,
            rate % 8 == 0,
            rate + capacity == 200,
        ensures
            r.wf(),
            r.rate == rate,
            r.capacity == capacity,
    {
        Sponge { rate: rate, capacity: capacity, keccak_f: KeccakF::new() }
    }

    /// XORs each `rate`-byte block of `message` into the state, running the permutation after each.
    pub fn absorb(&self, state: &mut State, message: &[u8])
        requires
            self.wf(),
            (message@.len() as int) % (self.rate as int) == 0,
        ensures
            final(state)@ == absorb_spec(old(state)@, message@, self.rate as int,
                ((message@.len() as int) / (self.rate as int)) as nat),
    {
        let chunks_total = message.len() / self.rate;
        let words: Vec<u64> = Sponge::bits_to_u64_words_le(message);
        let lanes = self.rate / 8;
        let message_len = message.len();
        let ghost s0 = state@;
        assert(lanes <= 25);
        for chunk_i in 0..chunks_total
            invariant
                self.wf(),
                lanes == self.rate / 8,
                message_len == message@.len(),
                chunks_total == (message@.len() as int) / (self.rate as int),
                (message@.len() as int) % (self.rate as int) == 0,
                words@.len() == (message@.len() as int) / 8,
                forall|w: int| 0 <= w < words@.len() ==> #[trigger] words@[w] == word_le(message@, 8 * w, 8),
                state@ == absorb_spec(s0, message@, self.rate as int, chunk_i as nat),
        {
            assert(chunk_i * lanes + lanes <= words@.len() && words@.len() <= message_len) by (nonlinear_arith)
                requires
                    chunk_i < chunks_total,
                    chunks_total == (message@.len() as int) / (self.rate as int),
                    (message@.len() as int) % (self.rate as int) == 0,
                    words@.len() == (message@.len() as int) / 8,
                    lanes == self.rate / 8,
                    self.rate % 8 == 0,
                    message_len == message@.len(),
                    0 < self.rate;
            let chunk_offset: usize = chunk_i * lanes;
            let ghost before = state@;
            let mut x: usize = 0;
            let mut y: usize = 0;
            for i in 0..lanes
                invariant
                    lanes == self.rate / 8,
                    lanes <= 25,
                    chunk_offset + lanes <= words@.len(),
                    words@.len() <= message_len,
                    chunk_offset == chunk_i * lanes,
                    before.len() == 25,
                    x == i % 5,
                    y == i / 5,
                    forall|j: int| 0 <= j < 25 ==> #[trigger] state@[j] == (if fill_lane(j) < i {
                        before[j] ^ words@[chunk_offset + fill_lane(j)]
                    } else {
                        before[j]
                    }),
            {
                let word = words[chunk_offset + i];
                assert(fill_lane(5 * x + y) == i);
                state[5 * x + y] = state[5 * x + y] ^ word;
                assert forall|j: int| 0 <= j < 25 && j != 5 * x + y implies fill_lane(j) != i by {}
                if x < 5 - 1 {
                    x += 1;
                } else {
                    y += 1;
                    x = 0;
                }
            }
            assert forall|j: int| 0 <= j < 25 && fill_lane(j) < lanes implies
                words@[chunk_offset + fill_lane(j)] == word_le(message@, chunk_i * self.rate + 8 * fill_lane(j), 8) by {
                assert(8 * (chunk_offset + fill_lane(j)) == chunk_i * self.rate + 8 * fill_lane(j)) by (nonlinear_arith)
                    requires chunk_offset == chunk_i * lanes, lanes == self.rate / 8, self.rate % 8 == 0;
            }
            assert(state@ =~= xor_block(before, message@, self.rate as int, chunk_i as int));
            self.keccak_f.permutations(state);
        }
    }

    /// Reads `capacity / 2` bytes from the state; the state is left as it was.
    pub fn squeeze(&self, state: &mut State) -> (output: Vec<u8>)
        ensures
            *final(state) == *old(state),
            output@ == squeeze_spec(old(state)@, (self.capacity / 2) as nat),
    {
        let mut output: Vec<u8> = Vec::new();
        let output_len: usize = self.capacity / 2;
        let elems_total: usize = output_len / 8;
        let mut m: usize = 0;
        while m < 25 && m <= elems_total
            invariant
                m <= 25,
                m <= elems_total + 1,
                output@.len() == 8 * m,
                forall|k: int| 0 <= k < 8 * m ==> #[trigger] output@[k] == word_byte(state@[fill_lane(k / 8)], k % 8),
            decreases 25 - m,
        {
            let lane = state[5 * (m % 5) + m / 5];
            for b in 0..8
                invariant
                    output@.len() == 8 * m + b,
                    lane == state@[fill_lane(m as int)],
                    forall|k: int| 0 <= k < 8 * m + b ==> #[trigger] output@[k] == word_byte(state@[fill_lane(k / 8)], k % 8),
            {
                output.push(((lane >> (8 * b) as u64) & 0xff) as u8);
            }
            m += 1;
        }
        while output.len() < output_len
            invariant
                output@.len() >= 8 * m,
                forall|k: int| 0 <= k < 8 * m ==> #[trigger] output@[k] == word_byte(state@[fill_lane(k / 8)], k % 8),
                forall|k: int| 8 * m <= k < output@.len() ==> #[trigger] output@[k] == 0,
            decreases output_len - output.len(),
        {
            output.push(0);
        }
        output.truncate(output_len);
        assert(output@ =~= squeeze_spec(state@, output_len as nat));
        output
    }

    /// Splits `message` into little-endian 64-bit words; a trailing partial word is dropped.
    pub fn bits_to_u64_words_le(message: &[u8]) -> (words: Vec<u64>)
        ensures
            words@.len() == (message@.len() as int) / 8,
            forall|w: int| 0 <= w < words@.len() ==> #[trigger] words@[w] == word_le(message@, 8 * w, 8),
    {
        let message_len = message.len();
        let words_total = message_len / 8;
        let mut words: Vec<u64> = Vec::new();
        for i in 0..words_total
            invariant
                words_total == (message@.len() as int) / 8,
                message_len == message@.len(),
                words@.len() == i,
                forall|w: int| 0 <= w < i ==> #[trigger] words@[w] == word_le(message@, 8 * w, 8),
        {
            let mut word: u64 = 0;
            for b in 0..8
                invariant
                    i < words_total,
                    words_total == (message@.len() as int) / 8,
                    message_len == message@.len(),
                    word == word_le(message@, 8 * i, b as nat),
            {
                assert(8 * i + b < message@.len()) by (nonlinear_arith)
                    requires i < words_total, b < 8, words_total == (message@.len() as int) / 8;
                word = word | ((message[8 * i + b] as u64) << (8 * b) as u64);
            }
            words.push(word);
        }
        words
    }
}

/// The padding appended to a message of `message_len` bytes: `0x81` alone when one byte
/// is missing to a multiple of `rate`, else `0x01`, zeros, `0x80`.
pub fn padding(message_len: usize, rate: usize) -> (padding: Vec<u8>)
    requires
        0 < rate,
    ensures
        padding@ == pad_spec(message_len as int, rate as int),
{
    let padding_total = rate - (message_len % rate);
    let mut padding: Vec<u8> = Vec::new();
    if padding_total == 1 {
        padding.push(0x81);
    } else {
        padding.push(0x01);
        for i in 0..(padding_total - 2)
            invariant
                padding@ == seq![0x01u8] + Seq::new(i as nat, |k: int| 0u8),
        {
            padding.push(0x00);
            assert(padding@ =~= seq![0x01u8] + Seq::new((i + 1) as nat, |k: int| 0u8));
        }
        padding.push(0x80);
    }
    assert(padding@ =~= pad_spec(message_len as int, rate as int));
    padding
}

/// Padding completes a message to the least multiple of the rate above its length, and
/// when one byte is missing that byte is `0x81`.
pub proof fn lemma_padding_length(len: int, rate: int)
    requires
        0 <= len,
        0 < rate,
    ensures
        (len + pad_spec(len, rate).len()) % rate == 0,
        len < len + pad_spec(len, rate).len() <= len + rate,
        rate - len % rate == 1 ==> pad_spec(len, rate) == seq![0x81u8],
{
    let p = rate - len % rate;
    assert(pad_spec(len, rate).len() == p);
    vstd::arithmetic::div_mod::lemma_fundamental_div_mod(len, rate);
    assert(len + p == (len / rate + 1) * rate) by (nonlinear_arith)
        requires len == rate * (len / rate) + len % rate, p == rate - len % rate;
    vstd::arithmetic::div_mod::lemma_mod_multiples_basic(len / rate + 1, rate);
}

} // verus!
