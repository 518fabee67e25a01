use conways_game_of_life::game::{Game, Position};
use conways_game_of_life::game_error::GameError;
use std::collections::HashSet;

fn alive_set(game: &Game) -> HashSet<Position> {
    let cells = game.alive_cells();
    let set: HashSet<Position> = HashSet::from_iter(cells.iter().copied());
    // Every living position is listed once.
    assert_eq!(set.len(), cells.len());
    set
}

fn set_of(cells: &[Position]) -> HashSet<Position> {
    HashSet::from_iter(cells.iter().copied())
}

/// The grid and the set of living positions say the same of every cell, and
/// every living position is on the grid.
fn assert_consistent(game: &Game) {
    let (height, width) = game.dimensions();
    let grid = game.grid();
    assert_eq!(grid.len(), height);
    let alive = alive_set(game);
    for (i, row) in grid.iter().enumerate() {
        assert_eq!(row.len(), width);
        for (j, cell) in row.iter().enumerate() {
            assert_eq!(cell.is_alive(), game.is_alive((i, j)));
            assert_eq!(cell.is_alive(), alive.contains(&(i, j)));
        }
    }
    for &(i, j) in alive.iter() {
        assert!(i < height && j < width);
    }
}

fn out_of_bounds(result: Result<(), GameError>) -> (Position, Position) {
    match result {
        Err(GameError::OutOfBoundsGridAccess(pos, dimensions)) => (pos, dimensions),
        Ok(()) => panic!("the position was accepted"),
    }
}

#[test]
fn of_size_is_all_dead() {
    let game = Game::of_size((3, 4));
    assert_eq!(game.dimensions(), (3, 4));
    assert!(game.alive_cells().is_empty());
    for i in 0..3 {
        for j in 0..4 {
            assert!(!game.is_alive((i, j)));
            assert_eq!(game.live_neighbors((i, j)), 0);
        }
    }
    assert_consistent(&game);
}

#[test]
fn degenerate_grids_keep_their_dimensions() {
    let mut flat = Game::of_size((0, 5));
    assert_eq!(flat.dimensions(), (0, 5));
    assert!(flat.grid().is_empty());
    assert_eq!(out_of_bounds(flat.give_life((0, 0))), ((0, 0), (0, 5)));
    flat.next();
    flat.genocide();
    assert!(flat.alive_cells().is_empty());

    let mut thin = Game::of_size((5, 0));
    assert_eq!(thin.dimensions(), (5, 0));
    assert_eq!(thin.grid().len(), 5);
    assert_eq!(out_of_bounds(thin.toggle_cell((0, 0))), ((0, 0), (5, 0)));
    thin.next();
    assert!(thin.alive_cells().is_empty());

    let mut none = Game::of_size((0, 0));
    assert_eq!(none.dimensions(), (0, 0));
    assert_eq!(out_of_bounds(none.kill((0, 0))), ((0, 0), (0, 0)));
    none.next();
    assert_eq!(none.live_neighbors((0, 0)), 0);
}

#[test]
fn origin_is_in_bounds() {
    let mut game = Game::of_size((1, 1));
    assert!(game.give_life((0, 0)).is_ok());
    assert!(game.is_alive((0, 0)));
    assert_eq!(game.live_neighbors((0, 0)), 0);
    assert!(game.kill((0, 0)).is_ok());
    assert!(!game.is_alive((0, 0)));
    assert!(game.toggle_cell((0, 0)).is_ok());
    assert!(game.is_alive((0, 0)));
}

#[test]
fn out_of_bounds_is_rejected_and_changes_nothing() {
    let seed = [(0, 0), (1, 2), (2, 3)];
    let mut game = Game::from_size_and_cells((3, 4), &seed).unwrap();
    let outside = [(3, 0), (0, 4), (3, 4), (7, 1), (1, 9), (usize::MAX, 0), (0, usize::MAX),
        (usize::MAX, usize::MAX)];
    for &pos in outside.iter() {
        assert_eq!(out_of_bounds(game.give_life(pos)), (pos, (3, 4)));
        assert_eq!(alive_set(&game), set_of(&seed));
        assert_eq!(out_of_bounds(game.kill(pos)), (pos, (3, 4)));
        assert_eq!(alive_set(&game), set_of(&seed));
        assert_eq!(out_of_bounds(game.toggle_cell(pos)), (pos, (3, 4)));
        assert_eq!(alive_set(&game), set_of(&seed));
        assert!(!game.is_alive(pos));
        assert_consistent(&game);
    }
    assert_eq!(game, Game::from_size_and_cells((3, 4), &seed).unwrap());
}

#[test]
fn last_cell_of_the_grid_is_in_bounds() {
    let mut game = Game::of_size((3, 4));
    assert!(game.give_life((2, 3)).is_ok());
    assert!(game.is_alive((2, 3)));
    assert_eq!(alive_set(&game), set_of(&[(2, 3)]));
    assert_consistent(&game);
}

#[test]
fn give_life_and_kill_are_idempotent() {
    let mut once = Game::of_size((3, 3));
    once.give_life((1, 2)).unwrap();
    let mut twice = Game::of_size((3, 3));
    twice.give_life((1, 2)).unwrap();
    twice.give_life((1, 2)).unwrap();
    assert_eq!(once, twice);
    assert_eq!(alive_set(&twice), set_of(&[(1, 2)]));
    assert_eq!(twice.alive_cells().len(), 1);

    once.kill((1, 2)).unwrap();
    twice.kill((1, 2)).unwrap();
    twice.kill((1, 2)).unwrap();
    assert_eq!(once, twice);
    assert!(twice.alive_cells().is_empty());
    assert_eq!(twice, Game::of_size((3, 3)));
    assert_consistent(&twice);
}

#[test]
fn kill_of_a_dead_cell_changes_nothing() {
    let mut game = Game::from_size_and_cells((3, 3), &[(0, 0)]).unwrap();
    assert!(game.kill((1, 1)).is_ok());
    assert_eq!(alive_set(&game), set_of(&[(0, 0)]));
    assert_consistent(&game);
}

#[test]
fn toggle_twice_restores_the_cell() {
    let seed = [(0, 0), (2, 2)];
    for &pos in [(0, 0), (1, 1), (2, 2), (0, 2)].iter() {
        let mut game = Game::from_size_and_cells((3, 3), &seed).unwrap();
        let before = game.is_alive(pos);
        game.toggle_cell(pos).unwrap();
        assert_eq!(game.is_alive(pos), !before);
        assert_consistent(&game);
        game.toggle_cell(pos).unwrap();
        assert_eq!(game.is_alive(pos), before);
        assert_eq!(alive_set(&game), set_of(&seed));
        assert_eq!(game, Game::from_size_and_cells((3, 3), &seed).unwrap());
    }
}

#[test]
fn toggle_touches_one_cell_only() {
    let mut game = Game::from_size_and_cells((3, 3), &[(0, 0), (2, 2)]).unwrap();
    game.toggle_cell((1, 1)).unwrap();
    assert_eq!(alive_set(&game), set_of(&[(0, 0), (1, 1), (2, 2)]));
    game.toggle_cell((0, 0)).unwrap();
    assert_eq!(alive_set(&game), set_of(&[(1, 1), (2, 2)]));
}

#[test]
fn genocide_leaves_nothing_alive() {
    let seed = [(0, 0), (0, 1), (1, 1), (2, 3), (3, 3)];
    let mut game = Game::from_size_and_cells((4, 4), &seed).unwrap();
    game.genocide();
    assert!(game.alive_cells().is_empty());
    for i in 0..4 {
        for j in 0..4 {
            assert!(!game.is_alive((i, j)));
            assert!(!game.grid()[i][j].is_alive());
        }
    }
    assert_eq!(game.dimensions(), (4, 4));
    assert_eq!(game, Game::of_size((4, 4)));
    game.genocide();
    assert_eq!(game, Game::of_size((4, 4)));
}

#[test]
fn out_of_bounds_seed_is_rejected_with_position_and_dimensions() {
    match Game::from_size_and_cells((2, 2), &[(3, 3)]) {
        Err(GameError::OutOfBoundsGridAccess(pos, dimensions)) => {
            assert_eq!(pos, (3, 3));
            assert_eq!(dimensions, (2, 2));
        }
        Ok(_) => panic!("the seed was accepted"),
    }
}

#[test]
fn seed_fails_at_its_first_position_off_the_grid() {
    match Game::from_size_and_cells((2, 2), &[(0, 0), (0, 2), (5, 5), (1, 1)]) {
        Err(GameError::OutOfBoundsGridAccess(pos, dimensions)) => {
            assert_eq!(pos, (0, 2));
            assert_eq!(dimensions, (2, 2));
        }
        Ok(_) => panic!("the seed was accepted"),
    }
}

#[test]
fn empty_seed_gives_the_empty_game() {
    let game = Game::from_size_and_cells((2, 3), &[]).unwrap();
    assert_eq!(game, Game::of_size((2, 3)));
}

#[test]
fn seed_with_repeats_lists_each_cell_once() {
    let game = Game::from_size_and_cells((2, 2), &[(1, 1), (0, 1), (1, 1), (1, 1)]).unwrap();
    assert_eq!(game.alive_cells().len(), 2);
    assert_eq!(alive_set(&game), set_of(&[(0, 1), (1, 1)]));
    assert_consistent(&game);
}

#[test]
fn give_life_list_stops_at_the_first_failure() {
    let mut game = Game::of_size((3, 3));
    let result = game.give_life_list(&[(0, 0), (1, 1), (3, 0), (2, 2), (9, 9)]);
    assert_eq!(out_of_bounds(result), ((3, 0), (3, 3)));
    assert_eq!(alive_set(&game), set_of(&[(0, 0), (1, 1)]));
    assert!(!game.is_alive((2, 2)));
    assert_consistent(&game);
}

#[test]
fn kill_list_stops_at_the_first_failure() {
    let seed = [(0, 0), (1, 1), (2, 2)];
    let mut game = Game::from_size_and_cells((3, 3), &seed).unwrap();
    let result = game.kill_list(&[(0, 0), (0, 1), (0, 3), (2, 2)]);
    assert_eq!(out_of_bounds(result), ((0, 3), (3, 3)));
    assert_eq!(alive_set(&game), set_of(&[(1, 1), (2, 2)]));
    assert_consistent(&game);
}

#[test]
fn kill_list_kills_all_when_all_are_on_the_grid() {
    let seed = [(0, 0), (1, 1), (2, 2)];
    let mut game = Game::from_size_and_cells((3, 3), &seed).unwrap();
    assert!(game.kill_list(&[(2, 2), (0, 0), (0, 0), (1, 2)]).is_ok());
    assert_eq!(alive_set(&game), set_of(&[(1, 1)]));
    assert!(game.kill_list(&[]).is_ok());
    assert!(game.give_life_list(&[]).is_ok());
    assert_eq!(alive_set(&game), set_of(&[(1, 1)]));
}

#[test]
fn bulk_operation_equals_the_single_operations_in_order() {
    let list = [(0, 1), (2, 2), (0, 1), (1, 0)];
    let mut bulk = Game::of_size((3, 3));
    bulk.give_life_list(&list).unwrap();
    let mut single = Game::of_size((3, 3));
    for &pos in list.iter() {
        single.give_life(pos).unwrap();
    }
    assert_eq!(bulk, single);
    bulk.kill_list(&list[1..3]).unwrap();
    single.kill((2, 2)).unwrap();
    single.kill((0, 1)).unwrap();
    assert_eq!(bulk, single);
    assert_eq!(alive_set(&bulk), set_of(&[(1, 0)]));
}

#[test]
fn live_neighbors_never_wrap_around() {
    // A ring of living cells along the border of a 3x3 grid.
    let border = [(0, 0), (0, 1), (0, 2), (1, 0), (1, 2), (2, 0), (2, 1), (2, 2)];
    let game = Game::from_size_and_cells((3, 3), &border).unwrap();
    assert_eq!(game.live_neighbors((1, 1)), 8);
    assert_eq!(game.live_neighbors((0, 0)), 2);
    assert_eq!(game.live_neighbors((0, 1)), 4);
    assert_eq!(game.live_neighbors((2, 2)), 2);
    assert_eq!(game.live_neighbors((1, 2)), 4);
}

#[test]
fn live_neighbors_does_not_count_the_cell_itself() {
    let game = Game::from_size_and_cells((3, 3), &[(1, 1)]).unwrap();
    assert_eq!(game.live_neighbors((1, 1)), 0);
    for &pos in [(0, 0), (0, 1), (0, 2), (1, 0), (1, 2), (2, 0), (2, 1), (2, 2)].iter() {
        assert_eq!(game.live_neighbors(pos), 1);
    }
}

#[test]
fn live_neighbors_of_positions_off_the_grid() {
    let game = Game::from_size_and_cells((2, 2), &[(0, 0), (0, 1), (1, 0), (1, 1)]).unwrap();
    assert_eq!(game.live_neighbors((2, 2)), 1);
    assert_eq!(game.live_neighbors((2, 0)), 2);
    assert_eq!(game.live_neighbors((0, 2)), 2);
    assert_eq!(game.live_neighbors((3, 3)), 0);
    assert_eq!(game.live_neighbors((usize::MAX, usize::MAX)), 0);
    assert_eq!(game.live_neighbors((usize::MAX, 0)), 0);
    assert_eq!(game.live_neighbors((0, usize::MAX)), 0);
}

#[test]
fn next_applies_every_rule() {
    // Neighbour counts 0 to 4 around living and dead cells on a 5x5 grid.
    let seed = [(0, 0), (1, 1), (1, 2), (2, 1), (2, 2), (3, 3), (4, 0)];
    let mut game = Game::from_size_and_cells((5, 5), &seed).unwrap();
    let mut expected: Vec<Position> = Vec::new();
    for i in 0..5 {
        for j in 0..5 {
            let n = game.live_neighbors((i, j));
            let alive = game.is_alive((i, j));
            if n == 3 || (alive && n == 2) {
                expected.push((i, j));
            }
        }
    }
    game.next();
    assert_eq!(alive_set(&game), set_of(&expected));
    assert_eq!(
        alive_set(&game),
        set_of(&[(0, 1), (1, 0), (1, 2), (2, 1), (2, 3), (3, 1), (3, 2)])
    );
    assert_eq!(game.dimensions(), (5, 5));
    assert_consistent(&game);
}

#[test]
fn block_is_a_still_life() {
    let block = [(1, 1), (1, 2), (2, 1), (2, 2)];
    let mut game = Game::from_size_and_cells((4, 4), &block).unwrap();
    for _ in 0..3 {
        game.next();
        assert_eq!(alive_set(&game), set_of(&block));
        assert_consistent(&game);
    }
}

#[test]
fn blinker_has_period_two() {
    let vertical = [(1, 2), (2, 2), (3, 2)];
    let horizontal = [(2, 1), (2, 2), (2, 3)];
    let mut game = Game::from_size_and_cells((5, 5), &vertical).unwrap();
    for _ in 0..3 {
        game.next();
        assert_eq!(alive_set(&game), set_of(&horizontal));
        assert_consistent(&game);
        game.next();
        assert_eq!(alive_set(&game), set_of(&vertical));
        assert_consistent(&game);
    }
}

#[test]
fn blinker_at_the_edge_does_not_wrap() {
    // A horizontal triple in the top row of a 3x3 grid leaves two cells in
    // the middle column.
    let mut game = Game::from_size_and_cells((3, 3), &[(0, 0), (0, 1), (0, 2)]).unwrap();
    game.next();
    assert_eq!(alive_set(&game), set_of(&[(0, 1), (1, 1)]));
    game.next();
    assert!(game.alive_cells().is_empty());
}

#[test]
fn overpopulation_scenario_in_full() {
    let seed = [(1, 0), (1, 1), (1, 2), (2, 1), (2, 2)];
    let mut game = Game::from_size_and_cells((4, 4), &seed).unwrap();
    assert_eq!(game.live_neighbors((1, 1)), 4);
    game.next();
    assert!(!game.is_alive((1, 1)));
    assert_eq!(
        alive_set(&game),
        set_of(&[(0, 1), (1, 0), (1, 2), (2, 0), (2, 2)])
    );
}

#[test]
fn grid_and_index_agree_after_every_operation() {
    let mut game = Game::of_size((4, 5));
    assert_consistent(&game);
    game.give_life_list(&[(0, 0), (1, 1), (1, 2), (2, 1), (3, 4)]).unwrap();
    assert_consistent(&game);
    game.toggle_cell((1, 1)).unwrap();
    assert_consistent(&game);
    game.toggle_cell((3, 3)).unwrap();
    assert_consistent(&game);
    game.kill((0, 0)).unwrap();
    assert_consistent(&game);
    let _ = game.give_life((4, 5));
    assert_consistent(&game);
    let _ = game.kill_list(&[(1, 2), (9, 9), (2, 1)]);
    assert_consistent(&game);
    game.next();
    assert_consistent(&game);
    game.next();
    assert_consistent(&game);
    game.genocide();
    assert_consistent(&game);
}

#[test]
fn error_message_text() {
    let error = GameError::OutOfBoundsGridAccess((3, 3), (2, 2));
    assert_eq!(error.message(), "Attemped access to an out of bounds position");
    assert_eq!(format!("{:?}", error), "OutOfBoundsGridAccess((3, 3), (2, 2))");
}

#[test]
fn clone_is_an_equal_and_independent_game() {
    let seed = [(0, 0), (1, 2), (2, 1)];
    let first = Game::from_size_and_cells((3, 4), &seed).unwrap();
    let mut copy = first.clone();
    assert_eq!(copy, first);
    assert_eq!(copy.dimensions(), (3, 4));
    assert_eq!(alive_set(&copy), set_of(&seed));
    assert_consistent(&copy);
    copy.toggle_cell((0, 0)).unwrap();
    assert!(first.is_alive((0, 0)));
    assert!(!copy.is_alive((0, 0)));
    assert_ne!(copy, first);
}
