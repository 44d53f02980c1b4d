use game2048::Direction;
use game2048::GameState;
use game2048::Position;
use game2048::Status;

fn pos(row: u8, column: u8) -> Position {
    Position { row, column }
}

fn row_values(g: &GameState, row: u8) -> Vec<u64> {
    (0u8..6).map(|c| g.cell_value(pos(row, c))).collect()
}

fn nonzero_cells(g: &GameState) -> Vec<(u8, u8, u64)> {
    let mut out = Vec::new();
    for r in 0u8..6 {
        for c in 0u8..6 {
            let v = g.cell_value(pos(r, c));
            if v != 0 {
                out.push((r, c, v));
            }
        }
    }
    out
}

/// A full board with no two adjacent equal values: 1 and 2 in a checker
/// pattern.
fn checkered() -> GameState {
    let mut g = GameState::new();
    for r in 0u8..6 {
        for c in 0u8..6 {
            g.set_cell(pos(r, c), 1 + ((r + c) % 2) as u64);
        }
    }
    g
}

#[test]
fn set_and_read_cells() {
    let mut g = GameState::new();
    for r in 0u8..6 {
        for c in 0u8..6 {
            assert_eq!(g.cell_value(pos(r, c)), 0);
        }
    }
    g.set_cell(pos(3, 4), 64);
    assert_eq!(g.cell_value(pos(3, 4)), 64);
    assert_eq!(g.cell_value(pos(4, 3)), 0);
}

#[test]
fn mergeable_needs_equal_nonzero() {
    let mut g = GameState::new();
    g.set_cell(pos(0, 0), 2);
    g.set_cell(pos(0, 1), 2);
    g.set_cell(pos(0, 2), 4);
    assert!(g.mergeable(pos(0, 0), pos(0, 1)));
    assert!(!g.mergeable(pos(0, 1), pos(0, 2)));
    assert!(!g.mergeable(pos(0, 0), pos(1, 0)));
    assert!(!g.mergeable(pos(5, 5), pos(4, 4)));
}

#[test]
fn wins_check_threshold() {
    let mut g = GameState::new();
    assert!(!g.wins());
    g.set_cell(pos(2, 2), 2047);
    assert!(!g.wins());
    g.set_cell(pos(2, 2), 2048);
    assert!(g.wins());
    g.set_cell(pos(2, 2), 4096);
    assert!(g.wins());
}

#[test]
fn dead_check_full_without_pairs() {
    let g = checkered();
    assert!(g.dead());
}

#[test]
fn dead_check_false_with_empty_cell() {
    let mut g = checkered();
    g.set_cell(pos(5, 5), 0);
    assert!(!g.dead());
}

#[test]
fn dead_check_false_with_adjacent_pair() {
    let mut g = checkered();
    // (3,3) holds 1 + (3+3)%2 == 1; its right neighbor held 2: make them equal
    g.set_cell(pos(3, 4), g.cell_value(pos(3, 3)));
    assert!(!g.dead());
}

#[test]
fn aggregate_compacts_one_row_toward_left() {
    let mut g = GameState::new();
    for (c, v) in [2u64, 2, 2, 2, 0, 0].iter().enumerate() {
        g.set_cell(pos(1, c as u8), *v);
    }
    g.aggregate(pos(1, 0), Direction::Left);
    assert_eq!(row_values(&g, 1), vec![4, 4, 0, 0, 0, 0]);
    assert_eq!(row_values(&g, 0), vec![0, 0, 0, 0, 0, 0]);
}

#[test]
fn aggregate_compacts_one_row_toward_right() {
    let mut g = GameState::new();
    for (c, v) in [2u64, 2, 4, 0, 0, 0].iter().enumerate() {
        g.set_cell(pos(2, c as u8), *v);
    }
    g.aggregate(pos(2, 5), Direction::Right);
    assert_eq!(row_values(&g, 2), vec![0, 0, 0, 0, 4, 4]);
}

#[test]
fn aggregate_leaves_alternating_row_unchanged() {
    let mut g = GameState::new();
    for (c, v) in [2u64, 4, 2, 4, 2, 4].iter().enumerate() {
        g.set_cell(pos(4, c as u8), *v);
    }
    g.aggregate(pos(4, 0), Direction::Left);
    assert_eq!(row_values(&g, 4), vec![2, 4, 2, 4, 2, 4]);
    g.aggregate(pos(4, 5), Direction::Right);
    assert_eq!(row_values(&g, 4), vec![2, 4, 2, 4, 2, 4]);
}

#[test]
fn aggregate_compacts_columns() {
    let mut g = GameState::new();
    g.set_cell(pos(0, 2), 8);
    g.set_cell(pos(3, 2), 8);
    g.set_cell(pos(5, 2), 2);
    g.aggregate(pos(5, 2), Direction::Down);
    assert_eq!(g.cell_value(pos(5, 2)), 2);
    assert_eq!(g.cell_value(pos(4, 2)), 16);
    for r in 0u8..4 {
        assert_eq!(g.cell_value(pos(r, 2)), 0);
    }
}

#[test]
fn move_on_winning_board_sets_won_and_skips_spawn() {
    for r in 0u8..6 {
        for c in 0u8..6 {
            for d in [Direction::Up, Direction::Down, Direction::Left, Direction::Right] {
                let mut g = GameState::new();
                g.set_cell(pos(r, c), 2048);
                assert_eq!(g.apply_move(d), Ok(true));
                assert_eq!(g.status(), Status::Won);
                let tiles = nonzero_cells(&g);
                // no spawn happened: the one tile just slid to the pressed edge
                assert_eq!(tiles.len(), 1);
                assert_eq!(tiles[0].2, 2048);
            }
        }
    }
}

#[test]
fn further_moves_after_win_change_nothing() {
    let mut g = GameState::new();
    g.set_cell(pos(1, 1), 2048);
    g.set_cell(pos(1, 2), 2);
    assert_eq!(g.apply_move(Direction::Left), Ok(true));
    assert_eq!(g.status(), Status::Won);
    let before = nonzero_cells(&g);
    assert_eq!(g.apply_move(Direction::Down), Ok(false));
    assert_eq!(g.apply_move(Direction::Right), Ok(false));
    assert_eq!(nonzero_cells(&g), before);
    assert_eq!(g.status(), Status::Won);
}

#[test]
fn merging_two_1024_tiles_wins() {
    let mut g = GameState::new();
    g.set_cell(pos(3, 0), 1024);
    g.set_cell(pos(3, 5), 1024);
    assert_eq!(g.apply_move(Direction::Left), Ok(true));
    assert_eq!(g.status(), Status::Won);
    assert_eq!(g.cell_value(pos(3, 0)), 2048);
}

#[test]
fn full_stuck_board_is_lost_after_one_move() {
    let mut g = checkered();
    assert_eq!(g.status(), Status::Playing);
    // nothing can slide or merge, no cell is empty: the move changes no cell,
    // spawns nothing, and the loss check fires
    assert_eq!(g.apply_move(Direction::Up), Ok(true));
    assert_eq!(g.status(), Status::Lost);
    // terminal: later moves are accepted but do nothing
    assert_eq!(g.apply_move(Direction::Left), Ok(false));
    assert_eq!(g.status(), Status::Lost);
}

#[test]
fn spawn_happens_even_when_nothing_slides() {
    let mut g = GameState::new();
    g.set_cell(pos(2, 5), 4);
    assert_eq!(g.apply_move(Direction::Right), Ok(true));
    assert_eq!(g.status(), Status::Playing);
    let tiles = nonzero_cells(&g);
    assert_eq!(tiles.len(), 2);
    assert!(tiles.contains(&(2, 5, 4)));
}

#[test]
fn spawn_from_byte_picks_by_modulo() {
    // empty cells left at flat indices 3, 7 and 11 (cells (0,3), (1,1), (1,5))
    let empties = [(0u8, 3u8), (1, 1), (1, 5)];
    for (b, expected) in [(0u8, 0usize), (1, 1), (2, 2), (3, 0), (5, 2), (254, 2)] {
        let mut g = checkered();
        for (r, c) in empties {
            g.set_cell(pos(r, c), 0);
        }
        g.spawn_from_byte(b);
        let (r, c) = empties[expected];
        assert_eq!(g.cell_value(pos(r, c)), 1);
        for (i, (r2, c2)) in empties.iter().enumerate() {
            if i != expected {
                assert_eq!(g.cell_value(pos(*r2, *c2)), 0);
            }
        }
    }
}

#[test]
fn spawn_on_full_board_changes_nothing() {
    let mut g = checkered();
    let before = nonzero_cells(&g);
    g.spawn_from_byte(123);
    assert_eq!(nonzero_cells(&g), before);
    assert!(g.add_at_random_position().is_ok());
    assert_eq!(nonzero_cells(&g), before);
}

#[test]
fn spawned_tile_is_a_1_in_an_empty_cell() {
    let mut g = GameState::new();
    g.set_cell(pos(0, 0), 4);
    assert!(g.add_at_random_position().is_ok());
    let tiles = nonzero_cells(&g);
    assert_eq!(tiles.len(), 2);
    assert!(tiles.contains(&(0, 0, 4)));
    let spawned: Vec<&(u8, u8, u64)> = tiles.iter().filter(|t| t.2 != 4).collect();
    assert_eq!(spawned.len(), 1);
    assert_eq!(spawned[0].2, 1);
}

#[test]
fn spawn_distribution_is_roughly_uniform() {
    // four empty cells; 256 byte values split evenly over 4, so a uniform
    // byte gives a uniform choice
    let empties = [(0u8, 0u8), (2, 3), (4, 1), (5, 5)];
    let trials = 2000usize;
    let mut counts = [0usize; 4];
    for _ in 0..trials {
        let mut g = checkered();
        for (r, c) in empties {
            g.set_cell(pos(r, c), 0);
        }
        assert!(g.add_at_random_position().is_ok());
        let mut hit = None;
        for (i, (r, c)) in empties.iter().enumerate() {
            if g.cell_value(pos(*r, *c)) == 1 {
                assert!(hit.is_none());
                hit = Some(i);
            }
        }
        counts[hit.expect("one empty cell must have been filled")] += 1;
    }
    for &n in counts.iter() {
        // expectation 500; allow a wide margin so the test stays stable
        assert!(n > 350 && n < 650, "spawn counts too skewed: {:?}", counts);
    }
}

#[test]
fn new_game_spawns_exactly_one_1() {
    let g = GameState::new_game().expect("the random source must be available");
    assert_eq!(g.status(), Status::Playing);
    let tiles = nonzero_cells(&g);
    assert_eq!(tiles.len(), 1);
    assert_eq!(tiles[0].2, 1);
}

#[test]
fn first_move_sends_lone_tile_to_the_far_edge() {
    let mut g = GameState::new();
    g.set_cell(pos(0, 0), 1);
    assert_eq!(g.apply_move(Direction::Right), Ok(true));
    assert_eq!(g.cell_value(pos(0, 5)), 1);
    assert_eq!(g.status(), Status::Playing);
    let tiles = nonzero_cells(&g);
    assert_eq!(tiles.len(), 2);
    // the spawned tile is a 1 in some cell that was empty before
    for (r, c, v) in tiles {
        assert_eq!(v, 1);
        assert!((r, c) != (0, 0));
    }
}

#[test]
fn moves_press_toward_each_edge() {
    for (d, expected) in [
        (Direction::Up, (0u8, 2u8)),
        (Direction::Down, (5, 2)),
        (Direction::Left, (2, 0)),
        (Direction::Right, (2, 5)),
    ] {
        let mut g = GameState::new();
        g.set_cell(pos(2, 2), 8);
        assert_eq!(g.apply_move(d), Ok(true));
        assert_eq!(g.cell_value(pos(expected.0, expected.1)), 8);
    }
}
