//! Seeded shuffles, drawn with the xoshiro256++ generator: its state follows
//! from the seed, and the order a shuffle gives depends only on the items and
//! the shuffles drawn before it from the same generator, so runs repeat
//! exactly for a given seed.
use vstd::prelude::*;
use rand_xoshiro::Xoshiro256PlusPlus;

verus! {

#[verifier::external_type_specification]
#[verifier::external_body]
pub struct ExXoshiro256PlusPlus(Xoshiro256PlusPlus);

/// The SplitMix64 output function: a mix of one 64-bit word, with wrapping
/// multiplication.
pub open spec fn splitmix_mix(z: u64) -> u64 {
    let a = ((z ^ (z >> 30u64)) * 0xbf58476d1ce4e5b9u64) as u64;
    let b = ((a ^ (a >> 27u64)) * 0x94d049bb133111ebu64) as u64;
    b ^ (b >> 31u64)
}

/// The `k`-th output (from 1) of SplitMix64 seeded with `seed`: its state
/// advances by the golden-ratio constant, with wrapping addition.
pub open spec fn splitmix_word(seed: u64, k: int) -> u64 {
    splitmix_mix((seed + k * 0x9e3779b97f4a7c15u64) as u64)
}

/// The first four SplitMix64 outputs for `seed`.
pub open spec fn splitmix_words(seed: u64) -> Seq<u64> {
    seq![splitmix_word(seed, 1), splitmix_word(seed, 2), splitmix_word(seed, 3), splitmix_word(seed, 4)]
}

/// The state of a xoshiro256++ generator seeded with `seed`: four SplitMix64
/// outputs, except that an all-zero state is replaced by the state for seed 0.
pub open spec fn xoshiro_state(seed: u64) -> Seq<u64> {
    if splitmix_words(seed) == seq![0u64, 0u64, 0u64, 0u64] {
        splitmix_words(0)
    } else {
        splitmix_words(seed)
    }
}

/// The order `rand`'s slice shuffle gives `items` when drawn from a generator
/// in `state`.
pub uninterp spec fn shuffled(items: Seq<usize>, state: Seq<u64>) -> Seq<usize>;

/// The state of a generator in `state` after it shuffled `len` items (how
/// many numbers a shuffle draws depends on the length and the state alone).
pub uninterp spec fn state_after(len: nat, state: Seq<u64>) -> Seq<u64>;

/// A seeded generator, with its state as the view.
pub struct SeededRng {
    rng: Xoshiro256PlusPlus,
    state: Ghost<Seq<u64>>,
}

impl View for SeededRng {
    type V = Seq<u64>;

    closed spec fn view(&self) -> Seq<u64> {
        self.state@
    }
}

impl SeededRng {
    /// `rand_xoshiro::Xoshiro256PlusPlus::seed_from_u64` (through
    /// `rand::SeedableRng`): the state is the first four outputs of SplitMix64
    /// seeded with `seed`, read back little-endian from the seed bytes they
    /// fill; an all-zero seed is replaced by the generator for seed 0.
    #[verifier::external_body]
    pub(crate) fn new(seed: u64) -> (rng: Self)
        ensures
            rng@ == xoshiro_state(seed),
    {
        SeededRng { rng: <Xoshiro256PlusPlus as rand::SeedableRng>::seed_from_u64(seed), state: Ghost(xoshiro_state(seed)) }
    }

    /// `rand::seq::SliceRandom::shuffle` on a vector of indices: a Fisher-Yates
    /// shuffle that swaps items in place, so the same items come out, in the
    /// order fixed by the items and the generator's state; the generator moves
    /// on to the state that the shuffle's length and its old state fix.
    #[verifier::external_body]
    pub(crate) fn shuffle(&mut self, items: &mut Vec<usize>)
        ensures
            final(items)@ == shuffled(old(items)@, old(self)@),
            final(self)@ == state_after(old(items)@.len(), old(self)@),
            final(items)@.len() == old(items)@.len(),
            final(items)@.to_multiset() == old(items)@.to_multiset(),
    {
        self.state = Ghost(state_after(items@.len(), self.state@));
        rand::seq::SliceRandom::shuffle(items.as_mut_slice(), &mut self.rng);
    }
}

} // verus!
