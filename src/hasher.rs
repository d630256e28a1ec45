//! The Keccak-256 hash object: a zeroed state behind a sponge of rate 136 and capacity 64.
use vstd::prelude::*;
use crate::permutation::State;
use crate::sponge::{
    absorb_spec,
    Sponge, padding, lemma_padding_length, pad_spec, ingest_spec, keccak256_spec, squeeze_spec,
    zero_state, RATE, CAPACITY,
};

verus! {

/// A Keccak-256 hasher.
///
/// `update` pads and absorbs exactly the bytes it is given: a second call does not continue
/// the first message, it pads and absorbs its own argument on top of the current state.
pub struct Keccak {
    pub state: State,
    pub sponge: Sponge,
}

impl Keccak {
    /// The hasher is configured for Keccak-256.
    pub open spec fn wf(&self) -> bool {
        &&& self.sponge.wf()
        &&& self.sponge.rate == RATE
        &&& self.sponge.capacity == CAPACITY
    }

    pub fn new() -> (r: Keccak)
        ensures
            r.wf(),
            r.state@ == zero_state(),
    {
        let r = Keccak { state: [0; 25], sponge: Sponge::new(RATE, CAPACITY) };
        assert(r.state@ =~= zero_state());
        r
    }

    /// Pads `input` and absorbs it into the state.
    pub fn update(&mut self, input: &[u8])
        requires
            old(self).wf(),
            input@.len() + RATE <= usize::MAX,
        ensures
            final(self).wf(),
            final(self).state@ == ingest_spec(old(self).state@, input@),
            final(self).state@ == absorb_spec(old(self).state@, input@ + pad_spec(input@.len() as int, RATE as int),
                RATE as int, (input@.len() as int / RATE as int + 1) as nat),
            input@.len() + pad_spec(input@.len() as int, RATE as int).len()
                == (RATE as int) * (input@.len() as int / RATE as int + 1),
            1 <= pad_spec(input@.len() as int, RATE as int).len() <= RATE,
            (input@.len() as int) % (RATE as int) == RATE - 1
                ==> final(self).state@ == absorb_spec(old(self).state@, input@ + seq![0x81u8],
                    RATE as int, (input@.len() as int / RATE as int + 1) as nat),
    {
        let pad = padding(input.len(), self.sponge.rate);
        let mut padded_input: Vec<u8> = Vec::new();
        padded_input.extend_from_slice(input);
        padded_input.extend_from_slice(pad.as_slice());
        assert(padded_input@ =~= input@ + pad_spec(input@.len() as int, RATE as int));
        proof {
            let len = input@.len() as int;
            lemma_padding_length(len, RATE as int);
            vstd::arithmetic::div_mod::lemma_fundamental_div_mod(len, RATE as int);
            let p = pad_spec(len, RATE as int).len();
            assert(p == RATE - len % (RATE as int));
            assert(len + p == (RATE as int) * (len / RATE as int + 1)) by (nonlinear_arith)
                requires len == (RATE as int) * (len / RATE as int) + len % (RATE as int), p == RATE - len % (RATE as int);
            vstd::arithmetic::div_mod::lemma_div_multiples_vanish(len / RATE as int + 1, RATE as int);
        }
        self.sponge.absorb(&mut self.state, padded_input.as_slice());
    }

    /// Returns the 32-byte digest of the current state, which is left as it was: two calls
    /// with no `update` between them return the same bytes.
    pub fn digest(&mut self) -> (r: Vec<u8>)
        requires
            old(self).wf(),
        ensures
            *final(self) == *old(self),
            r@ == squeeze_spec(old(self).state@, (CAPACITY / 2) as nat),
            r@.len() == 32,
    {
        self.sponge.squeeze(&mut self.state)
    }
}

/// Keccak-256 of `msg`.
pub fn keccak256(msg: &[u8]) -> (r: Vec<u8>)
    requires
        msg@.len() + RATE <= usize::MAX,
    ensures
        r@ == keccak256_spec(msg@),
        r@.len() == 32,
{
    let mut keccak = Keccak::new();
    keccak.update(msg);
    keccak.digest()
}

} // verus!
