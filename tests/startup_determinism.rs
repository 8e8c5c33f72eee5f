use rand::Rng;
use stackrankdice::tiered_prng::{PrngMapResource, PrngResource};

#[test]
fn startup_determinism_fixed_world_undef_env_seed() {
    let seeds = PrngResource { world_seed: 4242, env_seed: 0 };
    let mut map_prng = PrngMapResource::from_seeds(&seeds);

    let first: f32 = map_prng.rng.gen_range(0.0..=0.0001);
    assert_eq!(first, 2.1680013e-5);
}
