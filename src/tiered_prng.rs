use vstd::prelude::*;

use rand::seq::IteratorRandom;
use rand::Rng;
use rand::SeedableRng;
use rand_chacha::ChaCha20Rng;

verus! {

#[verifier::external_type_specification]
#[verifier::external_body]
pub struct ExChaCha20Rng(ChaCha20Rng);

/// The two seeds of a session: one for the map, one for everything else.
pub struct PrngResource {
    pub world_seed: u64,
    pub env_seed: u64,
}

impl Default for PrngResource {
    /// Both seeds unset.
    fn default() -> (r: Self)
        ensures
            r.world_seed == 0,
            r.env_seed == 0,
    {
        PrngResource { world_seed: 0, env_seed: 0 }
    }
}

/// The stream that drives map generation.
pub struct PrngMapResource {
    pub rng: ChaCha20Rng,
}

/// A seed of zero stands for "not given": it is replaced by the fresh value drawn for it.
pub fn resolve_seeds(world_seed: u64, env_seed: u64, fresh_world: u64, fresh_env: u64) -> (seeds:
    PrngResource)
    ensures
        seeds.world_seed == (if world_seed == 0 {
            fresh_world
        } else {
            world_seed
        }),
        seeds.env_seed == (if env_seed == 0 {
            fresh_env
        } else {
            env_seed
        }),
{
    PrngResource {
        world_seed: if world_seed == 0 {
            fresh_world
        } else {
            world_seed
        },
        env_seed: if env_seed == 0 {
            fresh_env
        } else {
            env_seed
        },
    }
}

impl PrngMapResource {
    /// The map stream of a session, seeded from its world seed.
    pub fn from_seeds(seeds: &PrngResource) -> (r: PrngMapResource)
        ensures
            r.rng == seeded_stream(seeds.world_seed),
    {
        PrngMapResource { rng: get_randomness(seeds.world_seed) }
    }
}

/// The generator state that a seed gives: rand_core documents `seed_from_u64`'s output as
/// fixed by the seed alone (a change to it counts as a value-breaking change).
pub uninterp spec fn seeded_stream(seed: u64) -> ChaCha20Rng;

/// Relies on rand_chacha's `ChaCha20Rng::seed_from_u64`: a stream fixed by the seed.
#[verifier::external_body]
pub fn get_randomness(seed: u64) -> (rng: ChaCha20Rng)
    ensures
        rng == seeded_stream(seed),
{
    ChaCha20Rng::seed_from_u64(seed)
}

/// Relies on rand's `Rng::gen_range` over `low..high`: it panics only on an empty range
/// and otherwise returns a value of the range.
#[verifier::external_body]
pub(crate) fn draw_in(rng: &mut ChaCha20Rng, low: usize, high: usize) -> (v: usize)
    requires
        low < high,
    ensures
        low <= v < high,
{
    rng.gen_range(low..high)
}

/// Relies on rand's `IteratorRandom::choose` over a slice iterator: `None` exactly when
/// there is nothing to choose from, otherwise one of the items.
#[verifier::external_body]
pub(crate) fn pick_one(rng: &mut ChaCha20Rng, items: &Vec<(isize, isize)>) -> (c: Option<
    (isize, isize),
>)
    ensures
        c is None <==> items@.len() == 0,
        c matches Some(x) ==> items@.contains(x),
{
    items.iter().choose(rng).copied()
}

/// Relies on rand's `IteratorRandom::choose_multiple`: asked for as many items as the
/// iterator holds, its reservoir keeps every item, in order.
#[verifier::external_body]
pub(crate) fn visiting_order(rng: &mut ChaCha20Rng, items: &Vec<(isize, isize)>) -> (r: Vec<
    (isize, isize),
>)
    ensures
        r@ == items@,
{
    items.iter().choose_multiple(rng, items.len()).into_iter().copied().collect()
}

} // verus!
