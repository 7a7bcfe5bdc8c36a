use rand_chacha::rand_core::RngCore;
use rand_pcg::Pcg64;
use rand_seeder::Seeder;
use vstd::prelude::*;

verus! {

/// `rand_pcg::Pcg64`, the generator both engines draw from. Nothing inside
/// it is visible here.
#[verifier::external_type_specification]
#[verifier::external_body]
pub struct ExPcg64(rand_pcg::Lcg128Xsl64);

/// The numbers that `rng` will hand out from here on, by their turn: key 0
/// is what the next call of `next_u32` returns, key 1 what the call after it
/// returns, and so on.
pub uninterp spec fn upcoming(rng: Pcg64) -> Map<nat, u32>;

/// The numbers that a `Pcg64` freshly seeded with `seed` by
/// `rand_seeder::Seeder` hands out, by their turn.
pub uninterp spec fn seeded_draws(seed: int) -> Map<nat, u32>;

/// Calls `Seeder::from(seed).make_rng()` of `rand_seeder` for a `Pcg64`.
/// Trusted: the seeder hashes the seed with a fixed-key SipHash over its
/// little-endian bytes and fills the generator's state from that, so what the
/// new generator will hand out depends on `seed` alone.
#[verifier::external_body]
pub(crate) fn seeded_generator(seed: i32) -> (rng: Pcg64)
    ensures
        upcoming(rng) == seeded_draws(seed as int),
{
    Seeder::from(seed).make_rng()
}

/// Calls `RngCore::next_u32` on the `Pcg64`. Trusted: the generator steps its
/// state once and returns the number derived from it, so the call returns the
/// first of the upcoming numbers and leaves the generator with the rest, each
/// one turn earlier.
#[verifier::external_body]
pub(crate) fn next_draw(rng: &mut Pcg64) -> (draw: u32)
    ensures
        draw == upcoming(*old(rng))[0],
        forall|i: nat| #[trigger] upcoming(*final(rng))[i] == upcoming(*old(rng))[i + 1],
{
    rng.next_u32()
}

/// Which of `len` choices a drawn number selects: the remainder of the draw
/// by the number of choices.
pub open spec fn chosen_index(draw: u32, len: int) -> int {
    (draw as int) % len
}

/// The value that `draw` picks from `pool`.
pub open spec fn pick(pool: Seq<u8>, draw: u32) -> u8 {
    pool[chosen_index(draw, pool.len() as int)]
}

/// Turns a drawn number into an index below `len`.
pub fn choose_index(draw: u32, len: usize) -> (index: usize)
    requires
        len > 0,
    ensures
        index == chosen_index(draw, len as int),
        index < len,
{
    proof {
        vstd::arithmetic::div_mod::lemma_mod_bound(draw as int, len as int);
    }
    (draw as usize) % len
}

} // verus!
