//! The random number generator that the avatar generator draws from (the
//! ISAAC generator of the `rand_isaac` crate, driven through `rand`), and the
//! keyed SipHash of std that turns a name into its seed.
//!
//! The generator is modelled by its seed and by the number of 32-bit words
//! drawn since it was seeded: ISAAC produces one fixed stream of words for
//! each seed, and every draw reads the next words of that stream.

use vstd::prelude::*;
use rand::{Rng, RngCore, SeedableRng};
use rand_isaac::IsaacRng;
use std::hash::{Hash, Hasher};

verus! {

/// The ISAAC generator, carried through the library as an opaque value.
#[verifier::external_type_specification]
#[verifier::external_body]
pub struct ExIsaacRng(IsaacRng);

/// The word at position `k` of the ISAAC stream seeded with the seed whose
/// first two little-endian words are `a` and `b` and whose other bytes are zero.
pub uninterp spec fn isaac_word(a: u32, b: u32, k: nat) -> u32;

/// What `rand::Rng::gen_range(0..bound)` returns on that stream read from
/// position `k`, and the position it leaves the stream at.
pub uninterp spec fn isaac_index(a: u32, b: u32, k: nat, bound: usize) -> (usize, nat);

/// An ISAAC generator together with its seed and the number of words drawn
/// from it since it was seeded.
pub struct Generator {
    rng: IsaacRng,
    seed: Ghost<(u32, u32)>,
    drawn: Ghost<nat>,
}

impl View for Generator {
    type V = (u32, u32, nat);

    /// The seed's two words and the number of words drawn.
    closed spec fn view(&self) -> (u32, u32, nat) {
        (self.seed@.0, self.seed@.1, self.drawn@)
    }
}

/// A new generator from `rand_core::SeedableRng::from_seed` applied to the
/// seed whose first two little-endian words are `a` and `b` and whose other
/// bytes are zero. The generator is opaque: nothing is said of it here.
#[verifier::external_body]
fn seeded_rng(a: u32, b: u32) -> IsaacRng {
    let mut seed = [0u8; 32];
    seed[0..4].copy_from_slice(&a.to_le_bytes());
    seed[4..8].copy_from_slice(&b.to_le_bytes());
    IsaacRng::from_seed(seed)
}

impl Generator {
    /// A generator seeded with `a` and `b`, nothing drawn yet.
    pub fn seeded(a: u32, b: u32) -> (g: Generator)
        ensures
            g@ == (a, b, 0nat),
    {
        Generator { rng: seeded_rng(a, b), seed: Ghost((a, b)), drawn: Ghost(0) }
    }

    /// Seeds the generator anew with `a` and `b`.
    pub fn reseed(&mut self, a: u32, b: u32)
        ensures
            final(self)@ == (a, b, 0nat),
    {
        self.rng = seeded_rng(a, b);
        self.seed = Ghost((a, b));
        self.drawn = Ghost(0);
    }
}

/// Calls `rand::Rng::gen_range` with the range `0..bound`. The `rand` source
/// asserts that the range is not empty and samples uniformly from it, so the
/// result is below `bound`. It reads the next words of the generator's stream
/// (a rejection loop, over `next_u32` or `next_u64`, which reads two
/// consecutive words); the value and the number of words read are named by
/// `isaac_index`, a function of the seed, the position and the bound alone on
/// a machine with 64-bit words (with 32-bit words `rand` samples `usize`
/// from single words, so the call is kept to 64-bit machines).
#[verifier::external_body]
pub(crate) fn gen_index(g: &mut Generator, bound: usize) -> (r: usize)
    requires
        usize::BITS == 64,
        bound > 0,
    ensures
        r < bound,
        final(g)@.0 == old(g)@.0,
        final(g)@.1 == old(g)@.1,
        (r, final(g)@.2) == isaac_index(old(g)@.0, old(g)@.1, old(g)@.2, bound),
{
    g.rng.gen_range(0..bound)
}

/// Calls `rand_core::RngCore::next_u32` on the ISAAC generator: it returns
/// the next word of the stream, the word at the number of words drawn.
#[verifier::external_body]
pub(crate) fn next_u32(g: &mut Generator) -> (r: u32)
    ensures
        r == isaac_word(old(g)@.0, old(g)@.1, old(g)@.2),
        final(g)@ == (old(g)@.0, old(g)@.1, old(g)@.2 + 1),
{
    g.rng.next_u32()
}

/// The SipHash-2-4 value, under the keys `k0` and `k1`, that hashing the
/// string `name` into `std::hash::SipHasher` gives.
pub uninterp spec fn spec_sip_hash(k0: u64, k1: u64, name: Seq<char>) -> u64;

/// Hashes `name` with `std::hash::SipHasher::new_with_keys(k0, k1)` through
/// `str`'s `Hash` impl and returns `finish()`. The value is a function of the
/// keys and the characters alone (SipHash with given keys holds no other
/// state); it is named, not computed, here.
#[verifier::external_body]
#[allow(deprecated)]
pub(crate) fn sip_hash(k0: u64, k1: u64, name: &str) -> (h: u64)
    ensures
        h == spec_sip_hash(k0, k1, name@),
{
    let mut sip = std::hash::SipHasher::new_with_keys(k0, k1);
    name.hash(&mut sip);
    sip.finish()
}

} // verus!
