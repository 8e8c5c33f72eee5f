use std::collections::VecDeque;

use rand::Rng;

use stackrankdice::events::{ClashOutcome, GameError};
use stackrankdice::game::{Board, GameLogEntry, GameState, Region, SelectedRegion};
use stackrankdice::generation::{generate_board, grant_dice, place_patch, GenerationError};
use stackrankdice::hex::{is_adjacent, HexCoord};
use stackrankdice::tiered_prng::{get_randomness, resolve_seeds, PrngResource};

fn region(hexes: Vec<(isize, isize)>, owner: usize, num_dice: usize, id: usize) -> Region {
    Region { hexes, owner, num_dice, id }
}

fn two_region_board() -> Board {
    Board {
        hexes: vec![((0, 0), 0), ((1, 0), 0), ((2, 0), 1), ((3, 0), 1)],
        regions: vec![
            region(vec![(0, 0), (1, 0)], 0, 3, 0),
            region(vec![(2, 0), (3, 0)], 1, 2, 1),
        ],
    }
}

fn neighbours_of(c: (isize, isize)) -> Vec<(isize, isize)> {
    HexCoord::new(c.0, c.1).neighbors().iter().map(|h| (h.q, h.r)).collect()
}

#[test]
fn neighbors_are_the_six_axial_directions() {
    let ns = neighbours_of((2, -3));
    assert_eq!(ns, vec![(3, -3), (3, -4), (2, -4), (1, -3), (1, -2), (2, -2)]);
    for n in ns {
        assert!(is_adjacent((2, -3), n));
        assert!(is_adjacent(n, (2, -3)));
    }
    assert!(!is_adjacent((0, 0), (1, 1)));
    assert!(!is_adjacent((0, 0), (0, 0)));
    assert!(!is_adjacent((isize::MIN, 0), (isize::MAX, 0)));
}

#[test]
fn opponents_need_other_owner_and_shared_border() {
    let a = region(vec![(0, 0)], 0, 1, 0);
    let b = region(vec![(1, 0)], 1, 1, 1);
    let c = region(vec![(5, 5)], 1, 1, 2);
    let d = region(vec![(0, 1)], 0, 1, 3);
    assert!(a.is_opponent(&b));
    assert!(b.is_opponent(&a));
    assert!(!a.is_opponent(&c));
    assert!(!c.is_opponent(&a));
    assert!(!a.is_opponent(&d));
    assert!(!d.is_opponent(&a));
}

#[test]
fn opponent_relation_is_symmetric_on_a_generated_board() {
    let board = generate_board(3, get_randomness(7)).unwrap();
    for a in board.regions.iter() {
        for b in board.regions.iter() {
            assert_eq!(a.is_opponent(b), b.is_opponent(a));
        }
    }
}

#[test]
fn center_hex_picks_the_member_nearest_the_mean() {
    let r = region(vec![(0, 0), (1, 0), (2, 0)], 0, 1, 0);
    assert_eq!(r.center_hex(), HexCoord::new(1, 0));
    let bent = region(vec![(5, 5), (0, 0), (0, 1), (1, 0)], 0, 1, 0);
    assert_eq!(bent.center_hex(), HexCoord::new(0, 1));
    let skew = region(vec![(9, 9), (0, 0), (1, 1), (0, 2)], 0, 1, 0);
    assert_eq!(skew.center_hex(), HexCoord::new(1, 1));
}

#[test]
fn center_hex_ties_and_empty_region() {
    let tie = region(vec![(4, 0), (3, 0)], 0, 1, 0);
    assert_eq!(tie.center_hex(), HexCoord::new(4, 0));
    let empty = region(vec![], 0, 1, 0);
    assert_eq!(empty.center_hex(), HexCoord::new(0, 0));
}

#[test]
fn possible_moves_lists_attacks_in_board_order() {
    let board = Board {
        hexes: vec![],
        regions: vec![
            region(vec![(0, 0)], 0, 1, 0),
            region(vec![(1, 0)], 1, 1, 1),
            region(vec![(0, 1)], 1, 1, 2),
            region(vec![(9, 9)], 0, 1, 3),
        ],
    };
    let moves = GameState::new(board, 2).possible_moves();
    let ids: Vec<(usize, usize)> = moves.iter().map(|(a, b)| (a.id, b.id)).collect();
    assert_eq!(ids, vec![(0, 1), (0, 2)]);
}

#[test]
fn possible_moves_follow_the_turn() {
    let mut g = GameState::new(two_region_board(), 2);
    g.turn_of_player = 1;
    let ids: Vec<(usize, usize)> = g.possible_moves().iter().map(|(a, b)| (a.id, b.id)).collect();
    assert_eq!(ids, vec![(1, 0)]);
}

#[test]
fn generation_rejects_bad_player_counts() {
    assert_eq!(generate_board(0, get_randomness(1)).unwrap_err(), GenerationError::InvalidPlayerCount);
    assert_eq!(generate_board(13, get_randomness(1)).unwrap_err(), GenerationError::InvalidPlayerCount);
    assert_eq!(generate_board(12, get_randomness(1)).unwrap_err(), GenerationError::GenerationFailed);
    assert!(generate_board(4, get_randomness(1)).is_ok());
    assert!(generate_board(1, get_randomness(1)).is_ok());
}

#[test]
fn generation_is_deterministic() {
    let a = generate_board(2, get_randomness(4242)).unwrap();
    let b = generate_board(2, get_randomness(4242)).unwrap();
    assert_eq!(a, b);
    let c = generate_board(2, get_randomness(4243)).unwrap();
    assert_ne!(a, c);
}

fn check_generated(board: &Board, players: usize) {
    assert_eq!(board.regions.len(), 16 * players);
    let patch_size = 400 / (32 * players);
    for (i, r) in board.regions.iter().enumerate() {
        assert_eq!(r.owner, i % players);
        assert!(r.hexes.len() <= patch_size + 1);
        for a in 0..r.hexes.len() {
            for b in 0..a {
                assert_ne!(r.hexes[a], r.hexes[b]);
            }
        }
    }
    for (k, (cell, owner)) in board.hexes.iter().enumerate() {
        let holders: Vec<&Region> = board.regions.iter().filter(|r| r.hexes.contains(cell)).collect();
        assert_eq!(holders.len(), 1);
        assert_eq!(holders[0].owner, *owner);
        for (k2, (cell2, _)) in board.hexes.iter().enumerate() {
            assert!(k == k2 || cell != cell2);
        }
    }
    let mut budget = vec![0usize; players];
    for (i, r) in board.regions.iter().enumerate() {
        assert_eq!(r.id, i);
        assert!(r.owner < players);
        assert!(1 <= r.num_dice && r.num_dice <= 3);
        budget[r.owner] += r.num_dice;
        for c in r.hexes.iter() {
            assert!(board.hexes.iter().any(|(h, o)| h == c && *o == r.owner));
        }
        let mut seen = vec![r.hexes[0]];
        let mut queue = VecDeque::from(vec![r.hexes[0]]);
        while let Some(c) = queue.pop_front() {
            for n in neighbours_of(c) {
                if r.hexes.contains(&n) && !seen.contains(&n) {
                    seen.push(n);
                    queue.push_back(n);
                }
            }
        }
        for c in r.hexes.iter() {
            assert!(seen.contains(c));
        }
    }
    for i in 1..board.regions.len() {
        let joins = board.regions[..i].iter().any(|earlier| {
            earlier.hexes.iter().any(|a| board.regions[i].hexes.iter().any(|b| is_adjacent(*a, *b)))
        });
        assert!(joins);
    }
    for total in budget {
        assert!(total <= 64);
    }
}

#[test]
fn generated_boards_are_partitioned_connected_and_within_budget() {
    for seed in [1u64, 2, 3, 4242, 99999] {
        for players in [1usize, 2, 4] {
            let board = generate_board(players, get_randomness(seed)).unwrap();
            check_generated(&board, players);
        }
    }
}

#[test]
fn patch_count_per_player_is_bounded() {
    let board = generate_board(2, get_randomness(4242)).unwrap();
    for p in 0..2 {
        assert_eq!(board.regions.iter().filter(|r| r.owner == p).count(), 16);
    }
    assert!(board.regions.iter().any(|r| r.hexes.len() > 1));
}

#[test]
fn fresh_map_has_a_move_for_the_first_player() {
    let board = generate_board(2, get_randomness(4242)).unwrap();
    let moves = GameState::new(board, 2).possible_moves();
    assert!(!moves.is_empty());
    for (a, b) in moves.iter() {
        assert_eq!(a.owner, 0);
        assert!(a.is_opponent(b));
    }
}

#[test]
fn selecting_own_region_then_enemy_starts_a_clash() {
    let g = GameState::new(two_region_board(), 2);
    let mut sel = SelectedRegion::default();
    let none = g.region_selected(&mut sel, 10, &g.board.regions[0]);
    assert!(none.is_none());
    assert_eq!(sel.entity, Some(10));
    assert_eq!(sel.region.as_ref().unwrap().id, 0);
    let clash = g.region_selected(&mut sel, 11, &g.board.regions[1]).unwrap();
    assert_eq!(clash.region_1.id, 0);
    assert_eq!(clash.region_2.id, 1);
    assert!(sel.entity.is_none() && sel.region.is_none());
}

#[test]
fn selecting_enemy_without_attacker_only_clears() {
    let g = GameState::new(two_region_board(), 2);
    let mut sel = SelectedRegion::default();
    assert!(g.region_selected(&mut sel, 11, &g.board.regions[1]).is_none());
    assert!(sel.region.is_none());
    sel.select(3, region(vec![(7, 7)], 0, 1, 0));
    assert!(g.region_selected(&mut sel, 11, &g.board.regions[1]).is_none());
    assert!(sel.region.is_none());
    sel.select(3, g.board.regions[0].clone());
    sel.deselect();
    assert!(sel.entity.is_none());
}

fn clash_state() -> GameState {
    let mut g = GameState::new(two_region_board(), 2);
    let a = g.board.regions[0].clone();
    let d = g.board.regions[1].clone();
    let request = g.start_clash(&a, &d);
    assert_eq!(request, vec![3, 2]);
    g
}

#[test]
fn clash_start_opens_a_log_entry() {
    let g = clash_state();
    assert_eq!(g.game_log.len(), 1);
    let e: &GameLogEntry = &g.game_log[0];
    assert_eq!((e.turn_counter, e.turn_of_player, e.dice_1_sum, e.dice_2_sum), (0, 0, 0, 0));
    assert_eq!(e.region_1.id, 0);
    assert_eq!(e.region_2.id, 1);
}

#[test]
fn roll_sums_go_into_the_pending_entry() {
    let mut g = clash_state();
    assert_eq!(g.record_dice_roll(&vec![vec![6, 5, 1], vec![2, 2]]), Ok(()));
    assert_eq!((g.game_log[0].dice_1_sum, g.game_log[0].dice_2_sum), (12, 4));
}

#[test]
fn roll_errors() {
    let mut empty = GameState::new(two_region_board(), 2);
    assert_eq!(empty.record_dice_roll(&vec![vec![1], vec![1]]), Err(GameError::NoPendingClash));
    let mut g = clash_state();
    assert_eq!(g.record_dice_roll(&vec![vec![1]]), Err(GameError::MalformedRoll));
    assert_eq!(g.record_dice_roll(&vec![vec![usize::MAX, 1], vec![1]]), Err(GameError::MalformedRoll));
    assert_eq!((g.game_log[0].dice_1_sum, g.game_log[0].dice_2_sum), (0, 0));
}

#[test]
fn attacker_wins_on_a_higher_sum() {
    let mut g = clash_state();
    g.record_dice_roll(&vec![vec![6, 6, 6], vec![1, 1]]).unwrap();
    let out = g.settle_clash(2).unwrap();
    assert!(out.attacker_won);
    assert_eq!(g.board.regions[1].owner, 0);
    assert_eq!(g.board.regions[1].num_dice, 2);
    assert_eq!(g.board.regions[0].num_dice, 2);
    assert_eq!(g.board.hexes, vec![((0, 0), 0), ((1, 0), 0), ((2, 0), 0), ((3, 0), 0)]);
    assert_eq!(g.board.regions.len(), 2);
    assert_eq!(out.winner, Some(0));
    assert!(out.turn_passed);
    assert_eq!((g.turn_of_player, g.turn_counter), (1, 1));
    assert_eq!(g.game_log.len(), 1);
}

#[test]
fn defender_wins_ties() {
    let mut g = clash_state();
    g.record_dice_roll(&vec![vec![3, 1, 1], vec![4, 1]]).unwrap();
    let out = g.settle_clash(1).unwrap();
    assert_eq!(out, ClashOutcome { attacker_won: false, turn_passed: true, winner: Some(1) });
    assert_eq!(g.board.regions[0].owner, 1);
    assert_eq!(g.board.regions[0].num_dice, 1);
    assert_eq!(g.board.regions[1].num_dice, 2);
    assert_eq!(g.board.hexes, vec![((0, 0), 1), ((1, 0), 1), ((2, 0), 1), ((3, 0), 1)]);
}

#[test]
fn single_die_winner_keeps_dice() {
    let mut g = GameState::new(
        Board {
            hexes: vec![],
            regions: vec![region(vec![(0, 0)], 0, 1, 0), region(vec![(1, 0)], 1, 3, 1), region(vec![(9, 9)], 1, 2, 2)],
        },
        2,
    );
    let a = g.board.regions[0].clone();
    let d = g.board.regions[1].clone();
    g.start_clash(&a, &d);
    g.record_dice_roll(&vec![vec![6], vec![1, 1, 1]]).unwrap();
    let out = g.settle_clash(0).unwrap();
    assert!(out.attacker_won);
    assert_eq!(g.board.regions[1].owner, 0);
    assert_eq!(g.board.regions[1].num_dice, 3);
    assert_eq!(g.board.regions[0].num_dice, 1);
    assert_eq!(out.winner, None);
}

#[test]
fn settle_errors() {
    let mut empty = GameState::new(two_region_board(), 2);
    assert_eq!(empty.settle_clash(1), Err(GameError::NoPendingClash));
    let mut g = clash_state();
    g.record_dice_roll(&vec![vec![6, 6, 6], vec![1, 1]]).unwrap();
    assert_eq!(g.settle_clash(0), Err(GameError::InvalidDraw));
    assert_eq!(g.settle_clash(3), Err(GameError::InvalidDraw));
    g.board.regions[0].num_dice = 5;
    assert_eq!(g.settle_clash(1), Err(GameError::StaleClash));
    g.board.regions.pop();
    g.board.regions[0].num_dice = 3;
    assert_eq!(g.settle_clash(1), Err(GameError::StaleClash));
}

#[test]
fn finish_clash_draws_within_the_winner_dice() {
    for seed in 0..20u64 {
        let mut g = clash_state();
        g.record_dice_roll(&vec![vec![6, 6, 6], vec![1, 1]]).unwrap();
        let mut rng = get_randomness(seed);
        let out = g.finish_clash(&mut rng).unwrap();
        assert!(out.attacker_won);
        let captured = g.board.regions[1].num_dice;
        assert!(1 <= captured && captured < 3);
        assert_eq!(g.board.regions[0].num_dice, 3 - (captured - 1));
    }
    let mut empty = GameState::new(two_region_board(), 2);
    assert_eq!(empty.finish_clash(&mut get_randomness(1)), Err(GameError::NoPendingClash));
}

fn three_region_game() -> GameState {
    GameState::new(
        Board {
            hexes: vec![],
            regions: vec![
                region(vec![(0, 0)], 0, 2, 0),
                region(vec![(1, 0)], 1, 2, 1),
                region(vec![(5, 5)], 0, 2, 2),
            ],
        },
        3,
    )
}

#[test]
fn turn_passes_when_the_only_attacker_has_moved() {
    let mut g = three_region_game();
    assert!(!g.is_turn_blocked());
    assert!(!g.advance_turn_if_blocked());
    assert_eq!((g.turn_of_player, g.turn_counter), (0, 0));
    let a = g.board.regions[0].clone();
    let d = g.board.regions[1].clone();
    g.start_clash(&a, &d);
    assert!(g.is_turn_blocked());
    assert!(g.advance_turn_if_blocked());
    assert_eq!((g.turn_of_player, g.turn_counter), (1, 1));
}

#[test]
fn turn_wraps_to_the_first_player() {
    let mut g = three_region_game();
    g.turn_of_player = 2;
    g.turn_counter = 7;
    assert!(g.advance_turn_if_blocked());
    assert_eq!((g.turn_of_player, g.turn_counter), (0, 8));
}

#[test]
fn one_owner_is_the_winner() {
    let mut b = two_region_board();
    assert_eq!(b.winner(), None);
    b.regions[1].owner = 0;
    assert_eq!(b.winner(), Some(0));
    b.regions[0].owner = 1;
    b.regions[1].owner = 1;
    assert_eq!(b.winner(), Some(1));
    let empty = Board { hexes: vec![], regions: vec![] };
    assert_eq!(empty.winner(), None);
}

#[test]
fn unset_seeds_take_the_fresh_values() {
    let s = resolve_seeds(0, 5, 11, 12);
    assert_eq!((s.world_seed, s.env_seed), (11, 5));
    let unset = PrngResource::default();
    assert_eq!((unset.world_seed, unset.env_seed), (0, 0));
    let s = resolve_seeds(unset.world_seed, unset.env_seed, 11, 12);
    assert_eq!((s.world_seed, s.env_seed), (11, 12));
    let s = resolve_seeds(4242, 0, 11, 12);
    assert_eq!((s.world_seed, s.env_seed), (4242, 12));
}

#[test]
fn captured_cells_change_owner_on_a_generated_board() {
    let board = generate_board(2, get_randomness(4242)).unwrap();
    let mut g = GameState::new(board, 2);
    let (a, d) = g.clone().possible_moves().remove(0);
    g.start_clash(&a, &d);
    g.record_dice_roll(&vec![vec![6; a.num_dice], vec![1; d.num_dice]]).unwrap();
    let out = g.finish_clash(&mut get_randomness(5)).unwrap();
    assert!(out.attacker_won);
    assert_eq!(g.board.regions[d.id].owner, a.owner);
    for (cell, owner) in g.board.hexes.iter() {
        let holder = g.board.regions.iter().find(|r| r.hexes.contains(cell)).unwrap();
        assert_eq!(holder.owner, *owner);
    }
    assert!(g.board.regions.iter().all(|r| r.num_dice >= 1));
}

#[test]
fn an_attacker_acts_once_per_turn() {
    let mut g = three_region_game();
    assert!(g.can_act(0));
    let a = g.board.regions[0].clone();
    let d = g.board.regions[1].clone();
    g.start_clash(&a, &d);
    assert!(!g.can_act(0));
    assert!(g.can_act(2));
    let mut sel = SelectedRegion::default();
    assert!(g.region_selected(&mut sel, 1, &a).is_none());
    assert!(sel.region.is_none() && sel.entity.is_none());
    let other = g.board.regions[2].clone();
    g.region_selected(&mut sel, 2, &other);
    assert_eq!(sel.entity, Some(2));
}

#[test]
fn place_patch_needs_fresh_grown_cells_beside_land() {
    let mut b = Board { hexes: vec![], regions: vec![] };
    assert!(!place_patch(&mut b, vec![], 0, true));
    assert!(!place_patch(&mut b, vec![(0, 0), (5, 5)], 0, true));
    assert!(!place_patch(&mut b, vec![(0, 0), (1, 0), (0, 0)], 0, true));
    assert!(!place_patch(&mut b, vec![(0, 0)], 0, false));
    assert!(place_patch(&mut b, vec![(0, 0), (1, 0)], 0, true));
    assert_eq!(b.hexes, vec![((0, 0), 0), ((1, 0), 0)]);
    assert_eq!(b.regions, vec![region(vec![(0, 0), (1, 0)], 0, 0, 0)]);
    assert!(!place_patch(&mut b, vec![(1, 0), (2, 0)], 1, false));
    assert!(!place_patch(&mut b, vec![(7, 7)], 1, false));
    assert!(place_patch(&mut b, vec![(2, 0)], 1, false));
    assert_eq!(b.regions[1], region(vec![(2, 0)], 1, 0, 1));
    assert_eq!(b.hexes.len(), 3);
}

#[test]
fn grant_dice_keeps_to_the_budget() {
    let mut b = two_region_board();
    let mut budget = vec![64usize, 3];
    assert!(grant_dice(&mut b, &mut budget, 0, 3));
    assert_eq!(b.regions[0].num_dice, 3);
    assert_eq!(budget, vec![61, 3]);
    assert!(!grant_dice(&mut b, &mut budget, 0, 4));
    assert!(!grant_dice(&mut b, &mut budget, 0, 0));
    assert!(!grant_dice(&mut b, &mut budget, 1, 3));
    assert!(grant_dice(&mut b, &mut budget, 1, 2));
    assert_eq!(budget, vec![61, 1]);
    assert!(!grant_dice(&mut b, &mut budget, 2, 1));
}

#[test]
fn same_seed_same_stream() {
    let mut a = get_randomness(4242);
    let mut b = get_randomness(4242);
    let xs: Vec<u64> = (0..8).map(|_| a.gen()).collect();
    let ys: Vec<u64> = (0..8).map(|_| b.gen()).collect();
    assert_eq!(xs, ys);
}
