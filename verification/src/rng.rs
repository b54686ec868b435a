use vstd::prelude::*;

verus! {

#[verifier::external_type_specification]
#[verifier::external_body]
pub struct ExStdRng(rand::rngs::StdRng);

/// Draw number `index` (counting from zero) of the stream of 64-bit values
/// that rand's `StdRng` yields after being seeded with the given four words.
/// Relies on `StdRng` being a pseudo-random generator, not a true random
/// source: the vendored generator is the ChaCha block cipher with 12 rounds,
/// a fixed function of the 32 seed bytes, so the draw depends on the seed
/// words and the position in the stream alone.
pub uninterp spec fn rng_word(seed: Seq<u32>, index: nat) -> u64;

/// The seed words behind an `StdRng` built by this library: the generator's
/// state embeds the seed it was built from, and this name reads it off the
/// opaque value.
pub uninterp spec fn rng_seed_of(r: rand::rngs::StdRng) -> Seq<u32>;

/// How many draws were already taken from an `StdRng` built by this library:
/// the generator's state records its position in the seed's stream, and this
/// name reads it off the opaque value.
pub uninterp spec fn rng_drawn_of(r: rand::rngs::StdRng) -> nat;

/// The four 32-bit words that seed the pseudo-random source. The default
/// generation pipeline uses the fixed all-zero seed; callers may supply
/// another to obtain a different, equally reproducible terrain.
pub struct Seed {
    pub w0: u32,
    pub w1: u32,
    pub w2: u32,
    pub w3: u32,
}

impl View for Seed {
    type V = Seq<u32>;

    open spec fn view(&self) -> Seq<u32> {
        seq![self.w0, self.w1, self.w2, self.w3]
    }
}

impl Seed {
    /// The fixed seed of the default pipeline: four zero-valued words.
    pub open spec fn zero_words() -> Seq<u32> {
        seq![0u32, 0u32, 0u32, 0u32]
    }

    pub fn zero() -> (s: Seed)
        ensures
            s@ == Seed::zero_words(),
    {
        Seed { w0: 0, w1: 0, w2: 0, w3: 0 }
    }
}

/// Relies on `rand::SeedableRng::from_seed` for `StdRng`: seeding with the
/// same 32 bytes builds the same generator state, positioned at the start of
/// its stream. The four seed words fill the first 16 seed bytes in
/// little-endian order; the remaining bytes stay zero.
#[verifier::external_body]
pub(crate) fn rng_from_seed(seed: &Seed) -> (r: rand::rngs::StdRng)
    ensures
        rng_seed_of(r) == seed@,
        rng_drawn_of(r) == 0,
{
    let mut bytes = [0u8; 32];
    bytes[0..4].copy_from_slice(&seed.w0.to_le_bytes());
    bytes[4..8].copy_from_slice(&seed.w1.to_le_bytes());
    bytes[8..12].copy_from_slice(&seed.w2.to_le_bytes());
    bytes[12..16].copy_from_slice(&seed.w3.to_le_bytes());
    <rand::rngs::StdRng as rand::SeedableRng>::from_seed(bytes)
}

/// Relies on `rand::Rng::next_u64` for `StdRng`: the generator hands out the
/// 64-bit value at its current position of its seed's stream and advances by
/// one position. The call cannot fail and does not panic.
#[verifier::external_body]
pub(crate) fn rng_next(r: &mut rand::rngs::StdRng) -> (w: u64)
    ensures
        rng_seed_of(*final(r)) == rng_seed_of(*old(r)),
        rng_drawn_of(*final(r)) == rng_drawn_of(*old(r)) + 1,
        w == rng_word(rng_seed_of(*old(r)), rng_drawn_of(*old(r))),
{
    rand::Rng::next_u64(r)
}

} // verus!
