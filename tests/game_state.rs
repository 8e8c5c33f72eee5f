use stackrankdice::game::{generate_board, GameState};
use stackrankdice::tiered_prng::get_randomness;

#[test]
fn game_state_fixed_world_undef_env_seed() {
    let board = generate_board(2, get_randomness(4242)).unwrap();
    let game_state = GameState::new(board, 2).clone();

    let possible_moves = game_state.possible_moves();

    println!("Number of possible moves: {:?}", possible_moves.len());
    assert!(possible_moves.len() > 0);
}
