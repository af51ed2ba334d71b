use slide2048::game::{Coordinates, GameOverReason, Grid, Move, Position, Tile};

fn board(size: u16, tiles: &[(u16, u16, u32)]) -> Grid {
    let mut grid = Grid::new(10, Coordinates::new(0, 0), size);
    for (x, y, n) in tiles {
        assert_eq!(grid.insert_tile(Position::new(*x, *y), *n), Ok(()));
    }
    grid
}

fn run_until_rest(grid: &mut Grid) -> u32 {
    let mut ticks = 0;
    while !grid.moving_tiles.is_empty() {
        assert_eq!(grid.on_tick(None), Ok(()));
        ticks += 1;
        assert!(ticks < 1000);
    }
    ticks
}

#[test]
fn two_equal_tiles_merge_left() {
    let mut grid = board(4, &[(2, 0, 2), (0, 0, 2)]);
    assert_eq!(grid.on_tick(Some(Move::Left)), Ok(()));
    assert_eq!(grid.moving_tiles, vec![(Position::new(2, 0), Position::new(0, 0))]);
    assert_eq!(grid.get_tile(Position::new(2, 0)), Some(Tile::new(Coordinates::new(26, 1), 2)));
    for step in 1u16..6 {
        assert_eq!(grid.on_tick(None), Ok(()));
        assert_eq!(
            grid.get_tile(Position::new(2, 0)),
            Some(Tile::new(Coordinates::new(26 - 4 * step, 1), 2))
        );
        assert_eq!(grid.get_tile(Position::new(0, 0)), Some(Tile::new(Coordinates::new(2, 1), 2)));
        assert_eq!(grid.moving_tiles.len(), 1);
        assert_eq!(grid.total_value(), Some(4));
    }
    assert_eq!(grid.on_tick(None), Ok(()));
    assert!(grid.moving_tiles.is_empty());
    assert_eq!(grid.get_tile(Position::new(0, 0)), Some(Tile::new(Coordinates::new(2, 1), 4)));
    assert_eq!(grid.tiles.len(), 2);
    assert_eq!(grid.total_value(), Some(6));
    let spawned: Vec<_> = grid.tiles.iter().filter(|(p, _)| *p != Position::new(0, 0)).collect();
    assert_eq!(spawned.len(), 1);
    assert_eq!(spawned[0].1.n, 2);
    assert_eq!(spawned[0].1.coordinates, grid.get_coordinates_at(spawned[0].0));
}

#[test]
fn a_move_that_changes_nothing_is_dropped() {
    let mut grid = board(4, &[(0, 0, 2), (1, 0, 4)]);
    let before = grid.clone();
    assert_eq!(grid.on_tick(Some(Move::Left)), Ok(()));
    assert_eq!(grid, before);
}

#[test]
fn a_tick_without_a_command_at_rest_changes_nothing() {
    let mut grid = board(4, &[(3, 2, 2)]);
    let before = grid.clone();
    assert_eq!(grid.on_tick(None), Ok(()));
    assert_eq!(grid, before);
}

#[test]
fn a_command_during_the_animation_is_dropped() {
    let mut grid = board(4, &[(3, 0, 2)]);
    assert_eq!(grid.on_tick(Some(Move::Left)), Ok(()));
    let moves = grid.moving_tiles.clone();
    assert_eq!(grid.on_tick(Some(Move::Right)), Ok(()));
    assert_eq!(grid.moving_tiles, moves);
    assert_eq!(grid.get_tile(Position::new(3, 0)).unwrap().coordinates, Coordinates::new(34, 1));
    let ticks = run_until_rest(&mut grid);
    assert_eq!(ticks, 8);
    assert_eq!(grid.get_tile(Position::new(0, 0)), Some(Tile::new(Coordinates::new(2, 1), 2)));
    assert_eq!(grid.get_tile(Position::new(3, 0)).map(|t| t.n).unwrap_or(2), 2);
}

#[test]
fn vertical_moves_step_along_the_y_axis() {
    let mut grid = board(4, &[(1, 3, 8)]);
    assert_eq!(grid.on_tick(Some(Move::Up)), Ok(()));
    assert_eq!(grid.moving_tiles, vec![(Position::new(1, 3), Position::new(1, 0))]);
    assert_eq!(grid.on_tick(None), Ok(()));
    assert_eq!(grid.get_tile(Position::new(1, 3)), Some(Tile::new(Coordinates::new(14, 17), 8)));
    let ticks = run_until_rest(&mut grid);
    assert_eq!(ticks, 8);
    assert_eq!(grid.get_tile(Position::new(1, 0)), Some(Tile::new(Coordinates::new(14, 1), 8)));
    assert_eq!(grid.total_value(), Some(10));
}

#[test]
fn a_tile_follows_into_the_cell_that_another_leaves() {
    let mut grid = board(4, &[(1, 0, 2), (2, 0, 4), (3, 0, 8)]);
    assert_eq!(grid.on_tick(Some(Move::Left)), Ok(()));
    assert_eq!(grid.moving_tiles.len(), 3);
    let ticks = run_until_rest(&mut grid);
    assert_eq!(ticks, 3);
    assert_eq!(grid.get_tile(Position::new(0, 0)).unwrap().n, 2);
    assert_eq!(grid.get_tile(Position::new(1, 0)).unwrap().n, 4);
    assert_eq!(grid.get_tile(Position::new(2, 0)).unwrap().n, 8);
    assert_eq!(grid.tiles.len(), 4);
    assert_eq!(grid.total_value(), Some(16));
}

#[test]
fn four_equal_tiles_settle_as_two() {
    let mut grid = board(4, &[(0, 0, 2), (1, 0, 2), (2, 0, 2), (3, 0, 2)]);
    assert_eq!(grid.on_tick(Some(Move::Left)), Ok(()));
    for _ in 0..3 {
        assert_eq!(grid.on_tick(None), Ok(()));
        assert_eq!(grid.total_value(), Some(8));
    }
    assert_eq!(grid.moving_tiles, vec![(Position::new(3, 0), Position::new(1, 0))]);
    assert_eq!(grid.get_tile(Position::new(0, 0)).unwrap().n, 4);
    assert_eq!(grid.get_tile(Position::new(1, 0)).unwrap().n, 2);
    let ticks = run_until_rest(&mut grid);
    assert_eq!(ticks, 3);
    assert_eq!(grid.get_tile(Position::new(0, 0)).unwrap().n, 4);
    assert_eq!(grid.get_tile(Position::new(1, 0)).unwrap().n, 4);
    assert_eq!(grid.tiles.len(), 3);
    assert_eq!(grid.max_value(), 4);
    assert_eq!(grid.total_value(), Some(10));
}

#[test]
fn the_sum_changes_only_by_the_new_tile() {
    let mut grid = board(4, &[(0, 0, 2), (3, 0, 2), (1, 1, 4), (2, 1, 4), (3, 3, 8), (0, 2, 8)]);
    let mut expected = 28;
    for mv in [Move::Left, Move::Down, Move::Right, Move::Up, Move::Left, Move::Up] {
        assert!(grid.has_sound_layout());
        assert_eq!(grid.total_value(), Some(expected));
        assert_eq!(grid.on_tick(Some(mv)), Ok(()));
        if grid.moving_tiles.is_empty() {
            continue;
        }
        while !grid.moving_tiles.is_empty() {
            assert_eq!(grid.total_value(), Some(expected));
            assert_eq!(grid.on_tick(None), Ok(()));
        }
        expected += 2;
        assert_eq!(grid.total_value(), Some(expected));
        for (position, tile) in grid.tiles.iter() {
            assert!(tile.n.is_power_of_two() && tile.n >= 2);
            assert_eq!(tile.coordinates, grid.get_coordinates_at(*position));
            assert!(position.x < 4 && position.y < 4);
        }
    }
}

#[test]
fn a_stuck_full_board_is_lost() {
    let mut grid = board(2, &[(0, 0, 2), (1, 0, 4), (0, 1, 8), (1, 1, 16)]);
    assert!(grid.is_full());
    assert_eq!(grid.spawn_random_tile(), Err(GameOverReason::BoardFull));
    assert_eq!(grid.check(Move::Left), vec![]);
    assert_eq!(grid.check(Move::Right), vec![]);
    assert_eq!(grid.check(Move::Up), vec![]);
    assert_eq!(grid.check(Move::Down), vec![]);
    let before = grid.clone();
    assert_eq!(grid.on_tick(None), Ok(()));
    assert_eq!(grid, before);
    assert_eq!(grid.on_tick(Some(Move::Left)), Err(GameOverReason::NoMovesLeft));
    assert!(grid.over);
    assert_eq!(grid.tiles, before.tiles);
    let ended = grid.clone();
    assert_eq!(grid.on_tick(Some(Move::Left)), Ok(()));
    assert_eq!(grid.on_tick(None), Ok(()));
    assert_eq!(grid, ended);
}

#[test]
fn a_full_board_that_can_merge_is_not_lost() {
    let mut grid = board(2, &[(0, 0, 2), (1, 0, 2), (0, 1, 8), (1, 1, 16)]);
    assert_eq!(grid.on_tick(Some(Move::Up)), Ok(()));
    assert!(!grid.over);
    assert!(grid.moving_tiles.is_empty());
    assert_eq!(grid.on_tick(Some(Move::Left)), Ok(()));
    assert_eq!(grid.moving_tiles, vec![(Position::new(1, 0), Position::new(0, 0))]);
    assert!(!grid.over);
}

#[test]
fn the_spawn_that_fills_a_stuck_board_ends_the_game() {
    let mut grid = board(2, &[(0, 0, 2), (1, 0, 2), (0, 1, 8), (1, 1, 16)]);
    assert_eq!(grid.on_tick(Some(Move::Left)), Ok(()));
    assert_eq!(grid.on_tick(None), Ok(()));
    assert_eq!(grid.on_tick(None), Ok(()));
    assert_eq!(grid.moving_tiles.len(), 1);
    assert_eq!(grid.on_tick(None), Err(GameOverReason::NoMovesLeft));
    assert!(grid.over);
    assert!(grid.moving_tiles.is_empty());
    assert_eq!(grid.get_tile(Position::new(0, 0)).unwrap().n, 4);
    assert_eq!(grid.get_tile(Position::new(1, 0)), Some(Tile::new(Coordinates::new(14, 1), 2)));
    assert_eq!(grid.total_value(), Some(30));
    let ended = grid.clone();
    assert_eq!(grid.on_tick(Some(Move::Right)), Ok(()));
    assert_eq!(grid.on_tick(None), Ok(()));
    assert_eq!(grid, ended);
}

#[test]
fn the_spawn_that_fills_a_board_with_a_move_left_goes_on() {
    let mut grid = board(2, &[(0, 0, 2), (1, 0, 2), (0, 1, 4), (1, 1, 16)]);
    assert_eq!(grid.on_tick(Some(Move::Left)), Ok(()));
    assert_eq!(run_until_rest(&mut grid), 3);
    assert!(grid.is_full());
    assert!(!grid.over);
    assert!(grid.can_move());
    assert_eq!(grid.check(Move::Up), vec![(Position::new(0, 1), Position::new(0, 0))]);
}

#[test]
fn spawning_fills_the_one_free_cell() {
    for _ in 0..20 {
        let mut grid = board(2, &[(0, 0, 2), (1, 0, 4), (1, 1, 16)]);
        assert_eq!(grid.empty_cells(), vec![Position::new(0, 1)]);
        assert_eq!(grid.spawn_random_tile(), Ok(()));
        assert_eq!(grid.get_tile(Position::new(0, 1)), Some(Tile::new(Coordinates::new(2, 7), 2)));
        assert_eq!(grid.tiles.len(), 4);
        assert!(grid.empty_cells().is_empty());
        assert!(grid.is_full());
        assert_eq!(grid.spawn_random_tile(), Err(GameOverReason::BoardFull));
        assert_eq!(grid.tiles.len(), 4);
    }
}

#[test]
fn spawning_picks_a_free_cell_and_adds_two() {
    for _ in 0..50 {
        let mut grid = board(3, &[(0, 0, 2), (1, 1, 4), (2, 2, 8)]);
        let before = grid.clone();
        assert_eq!(grid.spawn_random_tile(), Ok(()));
        assert_eq!(grid.tiles.len(), 4);
        assert_eq!(&grid.tiles[..3], &before.tiles[..]);
        let (cell, tile) = grid.tiles[3];
        assert!(cell.x < 3 && cell.y < 3);
        assert_eq!(before.get_tile(cell), None);
        assert_eq!(tile, Tile::new(grid.get_coordinates_at(cell), 2));
        assert_eq!(grid.total_value(), Some(16));
    }
}

#[test]
fn empty_cells_are_listed_column_by_column() {
    let grid = board(3, &[(0, 1, 2), (1, 0, 4), (1, 2, 8), (2, 1, 2)]);
    assert_eq!(
        grid.empty_cells(),
        vec![
            Position::new(0, 0),
            Position::new(0, 2),
            Position::new(1, 1),
            Position::new(2, 0),
            Position::new(2, 2),
        ]
    );
    assert!(!grid.is_full());
}

#[test]
fn spawn_at_places_a_two_or_refuses() {
    let mut grid = board(3, &[(0, 1, 4)]);
    assert_eq!(grid.spawn_at(Position::new(2, 2)), Ok(()));
    assert_eq!(grid.get_tile(Position::new(2, 2)), Some(Tile::new(Coordinates::new(26, 13), 2)));
    assert_eq!(grid.spawn_at(Position::new(0, 1)), Err(slide2048::game::StoreError::Occupied));
    assert_eq!(grid.get_tile(Position::new(0, 1)).unwrap().n, 4);
}

#[test]
fn a_long_game_keeps_the_grid_sound() {
    let mut grid = Grid::new(6, Coordinates::new(4, 2), 4);
    assert!(grid.has_sound_layout());
    assert_eq!(grid.spawn_random_tile(), Ok(()));
    let mut spawned = 1u32;
    let moves = [Move::Left, Move::Up, Move::Right, Move::Down];
    let mut turn = 0usize;
    let mut idle = 0;
    while !grid.over && spawned < 400 && idle < 8 {
        let total = grid.total_value().unwrap();
        assert_eq!(total, 2 * spawned);
        assert_eq!(grid.on_tick(Some(moves[turn % 4])), Ok(()));
        turn += 1;
        if grid.moving_tiles.is_empty() {
            idle += 1;
            continue;
        }
        idle = 0;
        let mut ticks = 0;
        let mut result = Ok(());
        while !grid.moving_tiles.is_empty() {
            assert_eq!(result, Ok(()));
            result = grid.on_tick(None);
            ticks += 1;
            assert!(ticks <= 6);
        }
        spawned += 1;
        let mut seen = std::collections::HashSet::new();
        for (position, tile) in grid.tiles.iter() {
            assert!(seen.insert(*position));
            assert!(position.x < 4 && position.y < 4);
            assert!(tile.n.is_power_of_two() && tile.n >= 2);
            assert_eq!(tile.coordinates, grid.get_coordinates_at(*position));
        }
        if result.is_err() {
            assert_eq!(result, Err(GameOverReason::NoMovesLeft));
            assert!(grid.over);
            assert!(grid.is_full());
            assert!(!grid.can_move());
        } else {
            assert!(!grid.over);
            assert!(!grid.is_full() || grid.can_move());
        }
    }
}
